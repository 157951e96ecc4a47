//! The capture session: it runs gets and puts against the full trie, records
//! what was read and written, and derives the proof bundle from that record.

use vstd::prelude::*;
use crate::bundle::{
    entry_view, hashes_view, minimize_entries, minimize_hashes, pairs_view, set_of, BundleView,
    Entry, PreStateAndPostState,
};
use crate::db::{store_wf, TrieDB};
use crate::descent::{
    descend_held, get_at, lemma_walk, lookup, put_at, put_result, stray_boundary, stray_root,
    stray_trie_root, views, walk,
};
use crate::digest::Digest;
use crate::error::Error;
use crate::nibbles::{
    copy_bytes, key_as_nibbles, key_fits, lemma_nibbles_are_path, nibbles_of, same_bytes, Nibbles,
};
use crate::node::{option_view, Node, NodeView};
use crate::trie::Trie;

verus! {

/// What a capture session holds, as mathematical values.
pub struct CaptureState {
    pub store: Map<Digest, NodeView>,
    pub root: NodeView,
    /// The keys that were read from the trie, each with the value of its
    /// first read, in the order of those reads.
    pub read_set: Seq<(Seq<u8>, Seq<u8>)>,
    /// The writes, in the order in which they were issued.
    pub write_list: Seq<(Seq<u8>, Seq<u8>)>,
}

/// The view of the result of a get.
pub open spec fn result_view(r: Result<Vec<u8>, Error>) -> Result<Seq<u8>, Error> {
    match r {
        Ok(v) => Ok(v@),
        Err(e) => Err(e),
    }
}

/// The value of the most recent write to `key`, if there is one.
pub open spec fn latest_write(writes: Seq<(Seq<u8>, Seq<u8>)>, key: Seq<u8>) -> Option<Seq<u8>>
    decreases writes.len(),
{
    if writes.len() == 0 {
        None
    } else if writes.last().0 == key {
        Some(writes.last().1)
    } else {
        latest_write(writes.drop_last(), key)
    }
}

/// Whether a list of pairs holds `key`.
pub open spec fn recorded(pairs: Seq<(Seq<u8>, Seq<u8>)>, key: Seq<u8>) -> bool {
    exists|i: int| 0 <= i < pairs.len() && (#[trigger] pairs[i]).0 == key
}

/// Whether no key occurs twice in a list of pairs.
pub open spec fn distinct_keys(pairs: Seq<(Seq<u8>, Seq<u8>)>) -> bool {
    forall|i: int, j: int|
        0 <= i < j < pairs.len() ==> (#[trigger] pairs[i]).0 != (#[trigger] pairs[j]).0
}

/// Whether every key of a list of pairs fits this machine.
pub open spec fn keys_fit(pairs: Seq<(Seq<u8>, Seq<u8>)>) -> bool {
    forall|i: int| 0 <= i < pairs.len() ==> key_fits((#[trigger] pairs[i]).0)
}

/// The value that the trie holds under `key`: the empty value where it holds
/// none.
pub open spec fn resolve(store: Map<Digest, NodeView>, root: NodeView, key: Seq<u8>) -> Result<
    Seq<u8>,
    Error,
> {
    match lookup(store, root, nibbles_of(key)) {
        Ok(Some(v)) => Ok(v),
        Ok(None) => Ok(Seq::<u8>::empty()),
        Err(e) => Err(e),
    }
}

/// The session and the result after a get.
///
/// The most recent write to the key answers it, and leaves the read-set alone.
/// Otherwise the trie answers, and the key is recorded with that value unless
/// it was recorded before. A storage miss changes nothing.
pub open spec fn capture_get(s: CaptureState, key: Seq<u8>) -> (
    CaptureState,
    Result<Seq<u8>, Error>,
) {
    match latest_write(s.write_list, key) {
        Some(v) => (s, Ok(v)),
        None => match resolve(s.store, s.root, key) {
            Ok(v) => (
                if recorded(s.read_set, key) {
                    s
                } else {
                    CaptureState { read_set: s.read_set.push((key, v)), ..s }
                },
                Ok(v),
            ),
            Err(e) => (s, Err(e)),
        },
    }
}

/// A session over a trie, with nothing read or written yet.
pub open spec fn start_of(store: Map<Digest, NodeView>, root: NodeView) -> CaptureState {
    CaptureState {
        store,
        root,
        read_set: Seq::<(Seq<u8>, Seq<u8>)>::empty(),
        write_list: Seq::<(Seq<u8>, Seq<u8>)>::empty(),
    }
}

/// The session after a put: the write is appended, the trie is untouched.
pub open spec fn capture_put(s: CaptureState, key: Seq<u8>, value: Seq<u8>) -> CaptureState {
    CaptureState { write_list: s.write_list.push((key, value)), ..s }
}

/// The nodes below the root on the descent path of `key`, each paired with
/// the key, from the top down.
pub open spec fn path_nodes(store: Map<Digest, NodeView>, root: NodeView, key: Seq<u8>) -> Seq<
    (Seq<u8>, NodeView),
> {
    let trail = walk(store, root, nibbles_of(key));
    Seq::new((trail.len() - 1) as nat, |j: int| (key, trail[j + 1]))
}

/// The hashes of the nodes below the root on the descent path of `key`, each
/// paired with the key, from the top down.
pub open spec fn path_hashes(store: Map<Digest, NodeView>, root: NodeView, key: Seq<u8>) -> Seq<
    (Seq<u8>, Digest),
> {
    let trail = walk(store, root, nibbles_of(key));
    Seq::new((trail.len() - 1) as nat, |j: int| (key, trail[j + 1].hash()))
}

/// The path hashes of every read key, in the order of the reads.
pub open spec fn pre_hashes(
    store: Map<Digest, NodeView>,
    root: NodeView,
    reads: Seq<(Seq<u8>, Seq<u8>)>,
) -> Seq<(Seq<u8>, Digest)>
    decreases reads.len(),
{
    if reads.len() == 0 {
        Seq::<(Seq<u8>, Digest)>::empty()
    } else {
        pre_hashes(store, root, reads.drop_last()) + path_hashes(store, root, reads.last().0)
    }
}

/// The trie after the writes were applied in order, with one entry per
/// write: the path nodes of the written key immediately before that write.
pub open spec fn apply_writes(
    store: Map<Digest, NodeView>,
    root: NodeView,
    writes: Seq<(Seq<u8>, Seq<u8>)>,
) -> Result<(Map<Digest, NodeView>, NodeView, Seq<Seq<(Seq<u8>, NodeView)>>), Error>
    decreases writes.len(),
{
    if writes.len() == 0 {
        Ok((store, root, Seq::<Seq<(Seq<u8>, NodeView)>>::empty()))
    } else {
        match put_result(store, root, nibbles_of(writes[0].0), writes[0].1) {
            Err(e) => Err(e),
            Ok((s, r)) => entries_after(
                seq![path_nodes(store, root, writes[0].0)],
                apply_writes(s, r, writes.skip(1)),
            ),
        }
    }
}

/// The outcome of a run of writes, with the entries of earlier writes put
/// before its own.
pub open spec fn entries_after(
    done: Seq<Seq<(Seq<u8>, NodeView)>>,
    outcome: Result<(Map<Digest, NodeView>, NodeView, Seq<Seq<(Seq<u8>, NodeView)>>), Error>,
) -> Result<(Map<Digest, NodeView>, NodeView, Seq<Seq<(Seq<u8>, NodeView)>>), Error> {
    match outcome {
        Err(e) => Err(e),
        Ok((store, root, entries)) => Ok((store, root, done + entries)),
    }
}

/// The bundle that a session derives, and the hash of the root after its
/// writes.
///
/// The pre-state holds the read-set and the minimized path hashes of the read
/// keys, taken against the trie before any write. The post-state holds the
/// minimized entries of the writes, each taken against the trie as the writes
/// before it left it. A write that misses the store fails the derivation.
pub open spec fn derived_bundle(s: CaptureState) -> Result<(BundleView, Digest), Error> {
    match apply_writes(s.store, s.root, s.write_list) {
        Err(e) => Err(e),
        Ok((store, root, entries)) => Ok(
            (
                BundleView {
                    reads: s.read_set,
                    hashes: minimize_hashes(
                        pre_hashes(s.store, s.root, s.read_set),
                        Set::<Digest>::empty(),
                    ),
                    post_state: minimize_entries(entries, Set::<Digest>::empty()),
                },
                root.hash(),
            ),
        ),
    }
}

/// Whether a session's values are consistent: the store is content-addressed,
/// the root is a branch of sixteen slots without a parent, no key is recorded
/// twice, every key fits this machine, and the trie resolves every recorded
/// key to its recorded value.
pub open spec fn capture_wf(s: CaptureState) -> bool {
    &&& store_wf(s.store)
    &&& s.root.is_root()
    &&& s.root.wf()
    &&& distinct_keys(s.read_set)
    &&& keys_fit(s.read_set)
    &&& keys_fit(s.write_list)
    &&& reads_resolve(s)
}

/// Whether the trie resolves every recorded key to the value that was
/// recorded for it: no descent of a recorded key misses the store.
pub open spec fn reads_resolve(s: CaptureState) -> bool {
    forall|i: int|
        0 <= i < s.read_set.len() ==> resolve(s.store, s.root, (#[trigger] s.read_set[i]).0)
            == Ok::<Seq<u8>, Error>(s.read_set[i].1)
}

/// A capture session over the full trie.
#[derive(Debug)]
pub struct TrieCaptureFraudProof {
    root: Node,
    db: TrieDB,
    // The key-value pairs got during the capture, with two caveats: a key is
    // stored with the value of its first read only, and a key that was
    // answered from the write list is not stored.
    read_set: Vec<(Vec<u8>, Vec<u8>)>,
    // The puts made during the capture, in order.
    write_list: Vec<(Vec<u8>, Vec<u8>)>,
}

impl View for TrieCaptureFraudProof {
    type V = CaptureState;

    closed spec fn view(&self) -> CaptureState {
        CaptureState {
            store: self.db@,
            root: self.root@,
            read_set: pairs_view(self.read_set@),
            write_list: pairs_view(self.write_list@),
        }
    }
}

/// Looks a key up in a list of pairs, from the most recent pair backward.
pub fn find_latest(pairs: &Vec<(Vec<u8>, Vec<u8>)>, key: &Vec<u8>) -> (r: Option<Vec<u8>>)
    ensures
        option_view(r) == latest_write(pairs_view(pairs@), key@),
{
    let ghost whole = pairs_view(pairs@);
    let mut i: usize = pairs.len();
    assert(whole.take(i as int) =~= whole);
    while i > 0
        invariant
            i <= pairs@.len(),
            whole == pairs_view(pairs@),
            latest_write(whole.take(i as int), key@) == latest_write(whole, key@),
        decreases i,
    {
        let ghost part = whole.take(i as int);
        assert(part.last() == (pairs@[i - 1].0@, pairs@[i - 1].1@));
        assert(part.drop_last() =~= whole.take(i - 1));
        if same_bytes(&pairs[i - 1].0, key) {
            return Some(copy_bytes(&pairs[i - 1].1));
        }
        i -= 1;
    }
    assert(whole.take(0).len() == 0);
    None
}

/// Tells whether a list of pairs holds `key`.
pub fn has_key(pairs: &Vec<(Vec<u8>, Vec<u8>)>, key: &Vec<u8>) -> (r: bool)
    ensures
        r == recorded(pairs_view(pairs@), key@),
{
    let ghost whole = pairs_view(pairs@);
    let mut i: usize = 0;
    while i < pairs.len()
        invariant
            i <= pairs@.len(),
            whole == pairs_view(pairs@),
            forall|j: int| 0 <= j < i ==> (#[trigger] whole[j]).0 != key@,
        decreases pairs@.len() - i,
    {
        assert(whole[i as int] == (pairs@[i as int].0@, pairs@[i as int].1@));
        if same_bytes(&pairs[i].0, key) {
            return true;
        }
        i += 1;
    }
    false
}

impl TrieCaptureFraudProof {
    /// What the trie of a session has to meet, whatever was recorded: its
    /// store is content-addressed.
    pub closed spec fn base(&self) -> bool {
        self.db.wf()
    }

    /// The session's invariant.
    pub open spec fn inv(&self) -> bool {
        self.base() && capture_wf(self@)
    }

    /// What the invariant says of a session's values.
    pub proof fn lemma_inv(&self)
        requires
            self.inv(),
        ensures
            capture_wf(self@),
            self@.root.wf(),
            store_wf(self@.store),
    {
    }

    /// A session over the trie with root `root` in store `db`, with nothing
    /// read or written yet.
    pub fn new(root: Node, db: TrieDB) -> (s: TrieCaptureFraudProof)
        requires
            db.wf(),
            root@.is_root(),
        ensures
            s.inv(),
            s@ == start_of(db@, root@),
    {
        broadcast use vstd::array::array_len_matches_n;

        let s = TrieCaptureFraudProof { root, db, read_set: Vec::new(), write_list: Vec::new() };
        assert(s@.read_set =~= Seq::<(Seq<u8>, Seq<u8>)>::empty());
        assert(s@.write_list =~= Seq::<(Seq<u8>, Seq<u8>)>::empty());
        s
    }

    /// The hash of the trie's root. Pending writes are not part of it.
    pub fn root_hash(&self) -> (r: Digest)
        ensures
            r == self@.root.hash(),
    {
        self.root.hash()
    }

    /// An ordinary get against the trie.
    pub fn get_as_normal(&self, key: &Vec<u8>) -> (r: Result<Vec<u8>, Error>)
        requires
            self.base(),
            key_fits(key@),
        ensures
            result_view(r) == resolve(self@.store, self@.root, key@),
    {
        let path = key_as_nibbles(copy_bytes(key));
        proof {
            lemma_nibbles_are_path(key@);
        }
        match get_at(&self.db, &self.root, &path) {
            Ok(Some(v)) => Ok(v),
            Ok(None) => Ok(Vec::new()),
            Err(e) => Err(e),
        }
    }

    /// An ordinary put against the trie: the root and the store change, the
    /// record of reads and writes does not. A storage miss changes nothing.
    /// The derivation applies the recorded writes with it, once the
    /// pre-state is taken.
    fn put_as_normal(&mut self, key: &Vec<u8>, value: &Vec<u8>) -> (r: Result<(), Error>)
        requires
            old(self).base(),
            key_fits(key@),
        ensures
            final(self).base(),
            old(self)@.root.is_root() ==> final(self)@.root.is_root(),
            match put_result(old(self)@.store, old(self)@.root, nibbles_of(key@), value@) {
                Ok((store, root)) => r is Ok && final(self)@ == (CaptureState {
                    store,
                    root,
                    ..old(self)@
                }),
                Err(e) => r == Err::<(), Error>(e) && final(self)@ == old(self)@,
            },
    {
        let path = key_as_nibbles(copy_bytes(key));
        proof {
            lemma_nibbles_are_path(key@);
        }
        match put_at(&mut self.db, &self.root, &path, copy_bytes(value)) {
            Ok(root) => {
                self.root = root;
                Ok(())
            },
            Err(e) => Err(e),
        }
    }

    /// The hashes of the nodes below the root on the descent path of a key.
    /// A descent that ends at a hash that the store does not hold is a
    /// storage miss.
    pub fn collect_proof_nodes_for_get(&self, get_key: &Vec<u8>) -> (r: Result<
        Vec<(Vec<u8>, Digest)>,
        Error,
    >)
        requires
            self.base(),
            key_fits(get_key@),
        ensures
            match lookup(self@.store, self@.root, nibbles_of(get_key@)) {
                Ok(v) => r is Ok && hashes_view(r->Ok_0@) == path_hashes(
                    self@.store,
                    self@.root,
                    get_key@,
                ),
                Err(e) => r is Err && r->Err_0 == e,
            },
    {
        let path = key_as_nibbles(copy_bytes(get_key));
        proof {
            lemma_nibbles_are_path(get_key@);
        }
        let trail = match descend_held(&self.db, &self.root, &path) {
            Ok(trail) => trail,
            Err(e) => {
                return Err(e);
            },
        };
        let ghost t = walk(self@.store, self@.root, nibbles_of(get_key@));
        let mut out: Vec<(Vec<u8>, Digest)> = Vec::new();
        let mut j: usize = 1;
        proof {
            lemma_walk(self@.store, self@.root, nibbles_of(get_key@));
        }
        while j < trail.len()
            invariant
                1 <= j <= trail@.len(),
                views(trail@) == t,
                out@.len() == j - 1,
                forall|k: int| 0 <= k < j - 1 ==> (#[trigger] out@[k]).0@ == get_key@ && out@[k].1
                    == t[k + 1].hash(),
            decreases trail@.len() - j,
        {
            assert(views(trail@)[j as int] == trail@[j as int]@);
            out.push((copy_bytes(get_key), trail[j].hash()));
            j += 1;
        }
        assert(hashes_view(out@) =~= path_hashes(self@.store, self@.root, get_key@));
        Ok(out)
    }

    /// The nodes below the root on the descent path of a key, as they are
    /// before the key is written. A descent that ends at a hash that the
    /// store does not hold is a storage miss.
    pub fn collect_proof_nodes_for_put(&self, put_key: &Vec<u8>) -> (r: Result<Entry, Error>)
        requires
            self.base(),
            key_fits(put_key@),
        ensures
            match lookup(self@.store, self@.root, nibbles_of(put_key@)) {
                Ok(v) => r is Ok && entry_view(r->Ok_0@) == path_nodes(
                    self@.store,
                    self@.root,
                    put_key@,
                ),
                Err(e) => r is Err && r->Err_0 == e,
            },
    {
        let path = key_as_nibbles(copy_bytes(put_key));
        proof {
            lemma_nibbles_are_path(put_key@);
        }
        let trail = match descend_held(&self.db, &self.root, &path) {
            Ok(trail) => trail,
            Err(e) => {
                return Err(e);
            },
        };
        let ghost t = walk(self@.store, self@.root, nibbles_of(put_key@));
        let mut out: Entry = Vec::new();
        let mut j: usize = 1;
        proof {
            lemma_walk(self@.store, self@.root, nibbles_of(put_key@));
        }
        while j < trail.len()
            invariant
                1 <= j <= trail@.len(),
                views(trail@) == t,
                out@.len() == j - 1,
                forall|k: int| 0 <= k < j - 1 ==> (#[trigger] out@[k]).0@ == put_key@ && out@[k].1@
                    == t[k + 1],
            decreases trail@.len() - j,
        {
            assert(views(trail@)[j as int] == trail@[j as int]@);
            out.push((copy_bytes(put_key), trail[j].clone()));
            j += 1;
        }
        assert(entry_view(out@) =~= path_nodes(self@.store, self@.root, put_key@));
        Ok(out)
    }

    /// The boundary path and the root of the stray trie of a put: the nearest
    /// branch above the key's position that the trie holds. A descent that
    /// ends at a hash that the store does not hold is a storage miss.
    pub fn get_stray_trie_root_of_put(&self, put_key: &Vec<u8>) -> (r: Result<
        (Nibbles, Node),
        Error,
    >)
        requires
            self.base(),
            key_fits(put_key@),
        ensures
            match lookup(self@.store, self@.root, nibbles_of(put_key@)) {
                Ok(v) => r is Ok && r->Ok_0.0@ == stray_boundary(
                    self@.store,
                    self@.root,
                    nibbles_of(put_key@),
                ) && r->Ok_0.1@ == stray_root(self@.store, self@.root, nibbles_of(put_key@)),
                Err(e) => r is Err && r->Err_0 == e,
            },
    {
        let path = key_as_nibbles(copy_bytes(put_key));
        proof {
            lemma_nibbles_are_path(put_key@);
        }
        match descend_held(&self.db, &self.root, &path) {
            Ok(_) => Ok(stray_trie_root(&self.db, &self.root, &path)),
            Err(e) => Err(e),
        }
    }

    /// Minimizes the pre-state of a bundle against an empty set of trusted hashes.
    pub fn minimize_pre_state(&self, pps: &mut PreStateAndPostState)
        ensures
            final(pps)@.reads == old(pps)@.reads,
            final(pps)@.post_state == old(pps)@.post_state,
            final(pps)@.hashes == minimize_hashes(old(pps)@.hashes, Set::<Digest>::empty()),
    {
        let trusted_nodes: Vec<Digest> = Vec::new();
        assert(set_of(trusted_nodes@) =~= Set::<Digest>::empty());
        pps.minimize_pre_state(&trusted_nodes);
    }

    /// Minimizes the post-state of a bundle against an empty set of trusted hashes.
    pub fn minimize_post_state(&self, pps: &mut PreStateAndPostState)
        ensures
            final(pps)@.reads == old(pps)@.reads,
            final(pps)@.hashes == old(pps)@.hashes,
            final(pps)@.post_state == minimize_entries(
                old(pps)@.post_state,
                Set::<Digest>::empty(),
            ),
    {
        let trusted_nodes: Vec<Digest> = Vec::new();
        assert(set_of(trusted_nodes@) =~= Set::<Digest>::empty());
        pps.minimize_post_state(&trusted_nodes);
    }

    /// Ends the session: derives the proof bundle and the hash of the root
    /// after the recorded writes.
    pub fn compute_pre_state_and_post_state(self) -> (r: Result<
        (PreStateAndPostState, Digest),
        Error,
    >)
        requires
            self.inv(),
        ensures
            match derived_bundle(self@) {
                Ok((bundle, root)) => r is Ok && r->Ok_0.0@ == bundle && r->Ok_0.1 == root,
                Err(e) => r is Err && r->Err_0 == e,
            },
    {
        let ghost start = self@;
        let mut this = self;
        let mut pps = PreStateAndPostState::new();

        // Compute the pre-state.
        let mut i: usize = 0;
        assert(pps@.reads =~= start.read_set.take(0));
        assert(pps@.hashes =~= pre_hashes(start.store, start.root, start.read_set.take(0)));
        while i < this.read_set.len()
            invariant
                this.inv(),
                this@ == start,
                i <= this.read_set@.len(),
                start.read_set.len() == this.read_set@.len(),
                pps@.reads == start.read_set.take(i as int),
                pps@.hashes == pre_hashes(start.store, start.root, start.read_set.take(i as int)),
                pps@.post_state.len() == 0,
            decreases this.read_set@.len() - i,
        {
            let ghost reads = pps@.reads;
            let ghost hashes = pps@.hashes;
            assert(start.read_set[i as int] == (
                this.read_set@[i as int].0@,
                this.read_set@[i as int].1@,
            ));
            let key = copy_bytes(&this.read_set[i].0);
            let value = copy_bytes(&this.read_set[i].1);
            let mut proof_nodes = match this.collect_proof_nodes_for_get(&key) {
                Ok(nodes) => nodes,
                Err(e) => {
                    // The trie resolves every recorded key.
                    assert(false);
                    return Err(e);
                },
            };
            let ghost found = hashes_view(proof_nodes@);
            pps.pre_state.0.push((key, value));
            pps.pre_state.1.append(&mut proof_nodes);
            proof {
                let next = start.read_set.take(i + 1);
                assert(next.drop_last() =~= start.read_set.take(i as int));
                assert(next.last() == start.read_set[i as int]);
                assert(pps@.reads =~= reads.push(start.read_set[i as int]));
                assert(pps@.reads =~= next);
                assert(pps@.hashes =~= hashes + found);
            }
            i += 1;
        }
        assert(start.read_set.take(i as int) =~= start.read_set);
        this.minimize_pre_state(&mut pps);

        // Compute the post-state.
        let ghost pre = pps@;
        let ghost goal = apply_writes(start.store, start.root, start.write_list);
        let mut j: usize = 0;
        proof {
            assert(start.write_list.skip(0) =~= start.write_list);
            assert(pps@.post_state =~= Seq::<Seq<(Seq<u8>, NodeView)>>::empty());
            lemma_entries_after_none(goal);
        }
        while j < this.write_list.len()
            invariant
                this.base(),
                keys_fit(start.write_list),
                j <= this.write_list@.len(),
                this@.write_list == start.write_list,
                start.write_list.len() == this.write_list@.len(),
                pps@.reads == pre.reads,
                pps@.hashes == pre.hashes,
                goal == entries_after(
                    pps@.post_state,
                    apply_writes(this@.store, this@.root, start.write_list.skip(j as int)),
                ),
                goal == apply_writes(self@.store, self@.root, self@.write_list),
            decreases this.write_list@.len() - j,
        {
            let ghost entries = pps@.post_state;
            let ghost rest = start.write_list.skip(j as int);
            assert(start.write_list[j as int] == (
                this.write_list@[j as int].0@,
                this.write_list@[j as int].1@,
            ));
            assert(rest[0] == start.write_list[j as int]);
            assert(rest.skip(1) =~= start.write_list.skip(j + 1));
            let key = copy_bytes(&this.write_list[j].0);
            let value = copy_bytes(&this.write_list[j].1);
            let proof_nodes = match this.collect_proof_nodes_for_put(&key) {
                Ok(nodes) => nodes,
                Err(e) => {
                    return Err(e);
                },
            };
            let ghost found = entry_view(proof_nodes@);
            match this.put_as_normal(&key, &value) {
                Ok(()) => {},
                Err(e) => {
                    return Err(e);
                },
            }
            pps.post_state.push(proof_nodes);
            proof {
                assert(pps@.post_state =~= entries.push(found));
                lemma_entries_after_one(
                    entries,
                    found,
                    apply_writes(this@.store, this@.root, start.write_list.skip(j + 1)),
                );
            }
            j += 1;
        }
        proof {
            assert(start.write_list.skip(j as int).len() == 0);
            assert(pps@.post_state + Seq::<Seq<(Seq<u8>, NodeView)>>::empty() =~= pps@.post_state);
        }
        this.minimize_post_state(&mut pps);
        let root = this.root.hash();
        Ok((pps, root))
    }
}

/// Putting no entries before an outcome leaves it as it is.
pub proof fn lemma_entries_after_none(
    outcome: Result<(Map<Digest, NodeView>, NodeView, Seq<Seq<(Seq<u8>, NodeView)>>), Error>,
)
    ensures
        entries_after(Seq::<Seq<(Seq<u8>, NodeView)>>::empty(), outcome) == outcome,
{
    match outcome {
        Err(e) => {},
        Ok((store, root, entries)) => {
            assert(Seq::<Seq<(Seq<u8>, NodeView)>>::empty() + entries =~= entries);
        },
    }
}

/// Putting entries before an outcome that has one entry before it is putting
/// all of them before it.
pub proof fn lemma_entries_after_one(
    done: Seq<Seq<(Seq<u8>, NodeView)>>,
    entry: Seq<(Seq<u8>, NodeView)>,
    outcome: Result<(Map<Digest, NodeView>, NodeView, Seq<Seq<(Seq<u8>, NodeView)>>), Error>,
)
    ensures
        entries_after(done, entries_after(seq![entry], outcome)) == entries_after(
            done.push(entry),
            outcome,
        ),
{
    match outcome {
        Err(e) => {},
        Ok((store, root, entries)) => {
            assert(done + (seq![entry] + entries) =~= done.push(entry) + entries);
        },
    }
}

impl Trie for TrieCaptureFraudProof {
    open spec fn wf(&self) -> bool {
        self.inv()
    }

    /// Answers from the most recent write to the key, or else from the trie,
    /// and records the first read of a key that no write shadows.
    fn get(&mut self, key: Vec<u8>) -> (r: Result<Vec<u8>, Error>)
        ensures
            (final(self)@, result_view(r)) == capture_get(old(self)@, key@),
    {
        // First attempt to get from the write list, from the rear, for the
        // latest value.
        match find_latest(&self.write_list, &key) {
            Some(v) => {
                return Ok(v);
            },
            None => {},
        }
        let value = match self.get_as_normal(&key) {
            Ok(v) => v,
            Err(e) => {
                return Err(e);
            },
        };
        // Update the read set only if the key has not been read before.
        if !has_key(&self.read_set, &key) {
            let ghost before = pairs_view(self.read_set@);
            self.read_set.push((key, copy_bytes(&value)));
            assert(pairs_view(self.read_set@) =~= before.push((key@, value@)));
        }
        Ok(value)
    }

    /// Appends the write to the write list. The trie is not touched.
    fn put(&mut self, key: Vec<u8>, value: Vec<u8>) -> (r: Result<(), Error>)
        ensures
            r is Ok,
            final(self)@ == capture_put(old(self)@, key@, value@),
    {
        let ghost before = pairs_view(self.write_list@);
        self.write_list.push((key, value));
        assert(pairs_view(self.write_list@) =~= before.push((key@, value@)));
        Ok(())
    }
}

} // verus!
