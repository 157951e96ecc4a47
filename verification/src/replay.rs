//! The replay session: it runs the recorded operations again, against a
//! skeleton that holds only what was received, and fails closed.

use vstd::prelude::*;
use crate::bundle::{
    entries_view, entry_view, gather, pairs_view, BundleView, Entry, PreStateAndPostState,
};
use crate::capture::{has_key, recorded, resolve, result_view};
use crate::db::{store_wf, TrieDB};
use crate::descent::{
    find_node, get_at, install_at, install_result, node_at, put_at, put_result, stray_boundary,
    stray_root, stray_trie_root, within,
};
use crate::digest::Digest;
use crate::error::Error;
use crate::nibbles::{
    b_extends_a, copy_bytes, extends, key_as_nibbles, key_fits, lemma_nibbles_are_path, nibbles_of,
    same_bytes, Nibbles,
};
use crate::node::{Node, NodeView};
use crate::trie::Trie;

verus! {

/// What a running replay session holds, as mathematical values.
pub struct ReplayState {
    /// The restricted store: the nodes that were received or made so far.
    pub store: Map<Digest, NodeView>,
    /// The root of the skeleton.
    pub root: NodeView,
    /// The (key, value) pairs of the pre-state.
    pub reads: Seq<(Seq<u8>, Seq<u8>)>,
    /// The keys that the replay has written so far.
    pub written: Seq<Seq<u8>>,
    /// The post-state entries that no put has consumed yet.
    pub pending: Seq<Seq<(Seq<u8>, NodeView)>>,
}

/// Whether the replay may read `key`: the pre-state holds it, or an earlier
/// put of this replay wrote it.
pub open spec fn known_key(s: ReplayState, key: Seq<u8>) -> bool {
    recorded(s.reads, key) || s.written.contains(key)
}

/// The result of a replayed get. A key that is not known fails the
/// completeness check; a hash that the skeleton cannot reach makes the proof
/// malformed.
pub open spec fn replay_get(s: ReplayState, key: Seq<u8>) -> Result<Seq<u8>, Error> {
    if !known_key(s, key) {
        Err(Error::IncompletePreState)
    } else {
        match resolve(s.store, s.root, key) {
            Ok(v) => Ok(v),
            Err(e) => Err(Error::MalformedProof),
        }
    }
}

/// The skeleton after one node of an entry is loaded: the node's key has to
/// extend the boundary, and the node is then installed on the key's path. A
/// key that does not extend the boundary is malformed; a node that the
/// skeleton does not expect on the path is a hash mismatch.
pub open spec fn load_node(
    store: Map<Digest, NodeView>,
    root: NodeView,
    boundary: Seq<u8>,
    key: Seq<u8>,
    node: NodeView,
) -> Result<(Map<Digest, NodeView>, NodeView), Error> {
    if !key_fits(key) || !extends(boundary, nibbles_of(key)) {
        Err(Error::MalformedProof)
    } else {
        install_result(store, root, nibbles_of(key), node)
    }
}

/// The skeleton after the nodes of an entry are loaded in order. The first
/// node that cannot be loaded ends the load.
pub open spec fn load(
    store: Map<Digest, NodeView>,
    root: NodeView,
    boundary: Seq<u8>,
    entry: Seq<(Seq<u8>, NodeView)>,
) -> Result<(Map<Digest, NodeView>, NodeView), Error>
    decreases entry.len(),
{
    if entry.len() == 0 {
        Ok((store, root))
    } else {
        match load_node(store, root, boundary, entry[0].0, entry[0].1) {
            Err(e) => Err(e),
            Ok((s, r)) => load(s, r, boundary, entry.skip(1)),
        }
    }
}

/// Whether every key of an entry fits this machine and extends the boundary.
pub open spec fn all_extend(boundary: Seq<u8>, entry: Seq<(Seq<u8>, NodeView)>) -> bool {
    forall|i: int|
        0 <= i < entry.len() ==> key_fits((#[trigger] entry[i]).0) && extends(
            boundary,
            nibbles_of(entry[i].0),
        )
}

/// Whether the stray trie that is rooted at the end of `boundary` still has
/// the hash `before`.
pub open spec fn hash_kept(
    store: Map<Digest, NodeView>,
    root: NodeView,
    boundary: Seq<u8>,
    before: Digest,
) -> bool {
    match node_at(store, root, boundary) {
        Some(n) => n.hash() == before,
        None => false,
    }
}

/// The skeleton after one replayed write, or the error that rejects it.
///
/// An entry with a key that does not extend the boundary of the write's
/// stray trie, as the skeleton has it before the load, is malformed. The
/// nodes of the entry are then loaded. A node that is none of the nodes that
/// the skeleton expects on the path of its key, and a stray trie whose hash
/// the load has changed, is a hash mismatch. Only
/// then is the write applied to the skeleton; a hash that the skeleton cannot
/// reach makes the proof malformed.
pub open spec fn checked_write(
    store: Map<Digest, NodeView>,
    root: NodeView,
    entry: Seq<(Seq<u8>, NodeView)>,
    key: Seq<u8>,
    value: Seq<u8>,
) -> Result<(Map<Digest, NodeView>, NodeView), Error> {
    let path = nibbles_of(key);
    let boundary = stray_boundary(store, root, path);
    let before = stray_root(store, root, path).hash();
    if !all_extend(boundary, entry) {
        Err(Error::MalformedProof)
    } else {
        match load(store, root, boundary, entry) {
            Err(e) => Err(e),
            Ok((s, r)) => if !hash_kept(s, r, boundary, before) {
                Err(Error::HashMismatch)
            } else {
                match put_result(s, r, path, value) {
                    Err(e) => Err(Error::MalformedProof),
                    Ok(written) => Ok(written),
                }
            },
        }
    }
}

/// The session after a replayed put, or the error that ends it.
///
/// The put consumes the first pending entry; without one the proof is
/// malformed. The write is checked against that entry and applied, the key
/// counts as written, and the cursor moves on.
pub open spec fn replay_put(s: ReplayState, key: Seq<u8>, value: Seq<u8>) -> Result<
    ReplayState,
    Error,
> {
    if s.pending.len() == 0 {
        Err(Error::MalformedProof)
    } else {
        match checked_write(s.store, s.root, s.pending[0], key, value) {
            Err(e) => Err(e),
            Ok((store, root)) => Ok(
                ReplayState {
                    store,
                    root,
                    reads: s.reads,
                    written: s.written.push(key),
                    pending: s.pending.skip(1),
                },
            ),
        }
    }
}

/// One operation of the log that a session replays.
pub enum Op {
    Get { key: Seq<u8> },
    Put { key: Seq<u8>, value: Seq<u8> },
}

/// The session after one operation, or the error that ends it. A get leaves
/// the session as it is.
pub open spec fn replay_step(s: ReplayState, op: Op) -> Result<ReplayState, Error> {
    match op {
        Op::Get { key } => match replay_get(s, key) {
            Ok(v) => Ok(s),
            Err(e) => Err(e),
        },
        Op::Put { key, value } => replay_put(s, key, value),
    }
}

/// The session after a log of operations, in order, or the first error.
pub open spec fn replay(s: ReplayState, ops: Seq<Op>) -> Result<ReplayState, Error>
    decreases ops.len(),
{
    if ops.len() == 0 {
        Ok(s)
    } else {
        match replay_step(s, ops[0]) {
            Err(e) => Err(e),
            Ok(next) => replay(next, ops.skip(1)),
        }
    }
}

/// What the gets of a log return, in order, up to the first error of the
/// replay.
pub open spec fn replay_answers(s: ReplayState, ops: Seq<Op>) -> Seq<Result<Seq<u8>, Error>>
    decreases ops.len(),
{
    if ops.len() == 0 {
        Seq::<Result<Seq<u8>, Error>>::empty()
    } else {
        match ops[0] {
            Op::Get { key } => seq![replay_get(s, key)] + (match replay_get(s, key) {
                Ok(v) => replay_answers(s, ops.skip(1)),
                Err(e) => Seq::<Result<Seq<u8>, Error>>::empty(),
            }),
            Op::Put { key, value } => match replay_put(s, key, value) {
                Ok(next) => replay_answers(next, ops.skip(1)),
                Err(e) => Seq::<Result<Seq<u8>, Error>>::empty(),
            },
        }
    }
}

/// The session that is seeded with a bundle: its store holds `held` and the
/// nodes that the pre-state names, taken from `source`; nothing is written
/// yet, and every post-state entry is pending.
pub open spec fn session_of(
    source: Map<Digest, NodeView>,
    held: Map<Digest, NodeView>,
    root: NodeView,
    bundle: BundleView,
) -> Result<ReplayState, Error> {
    match gather(source, held, bundle.hashes) {
        Err(e) => Err(e),
        Ok(store) => Ok(
            ReplayState {
                store,
                root,
                reads: bundle.reads,
                written: Seq::<Seq<u8>>::empty(),
                pending: bundle.post_state,
            },
        ),
    }
}

/// The views of a list of keys.
pub open spec fn keys_view(v: Seq<Vec<u8>>) -> Seq<Seq<u8>> {
    v.map_values(|k: Vec<u8>| k@)
}

/// A replay session over a skeleton.
#[derive(Debug)]
pub struct TrieVerifyFraudProof {
    root: Node,
    db: TrieDB,
    reads: Vec<(Vec<u8>, Vec<u8>)>,
    written: Vec<Vec<u8>>,
    post_state: Vec<Entry>,
    put_count: usize,
    // The error that ended the session, once one has.
    verdict: Option<Error>,
}

impl View for TrieVerifyFraudProof {
    type V = Result<ReplayState, Error>;

    /// A running session, or the error that ended it.
    closed spec fn view(&self) -> Result<ReplayState, Error> {
        match self.verdict {
            Some(e) => Err(e),
            None => Ok(self.running()),
        }
    }
}

/// Tells whether a list of keys holds `key`.
fn holds_key(keys: &Vec<Vec<u8>>, key: &Vec<u8>) -> (r: bool)
    ensures
        r == keys_view(keys@).contains(key@),
{
    let ghost whole = keys_view(keys@);
    let mut i: usize = 0;
    while i < keys.len()
        invariant
            i <= keys@.len(),
            whole == keys_view(keys@),
            forall|j: int| 0 <= j < i ==> whole[j] != key@,
        decreases keys@.len() - i,
    {
        assert(whole[i as int] == keys@[i as int]@);
        if same_bytes(&keys[i], key) {
            return true;
        }
        i += 1;
    }
    false
}

impl TrieVerifyFraudProof {
    spec fn running(&self) -> ReplayState {
        ReplayState {
            store: self.db@,
            root: self.root@,
            reads: pairs_view(self.reads@),
            written: keys_view(self.written@),
            pending: entries_view(self.post_state@).skip(self.put_count as int),
        }
    }

    /// The session's invariant.
    pub closed spec fn inv(&self) -> bool {
        &&& self.db.wf()
        &&& self.put_count <= self.post_state@.len()
        &&& self.verdict is None ==> self.root@.is_root()
    }

    /// The skeleton and what is left to replay, as the session holds them
    /// whether it has ended or not: an error leaves them as they were.
    pub closed spec fn skeleton(&self) -> ReplayState {
        self.running()
    }

    /// The cursor: how many post-state entries the puts have consumed.
    pub closed spec fn cursor(&self) -> nat {
        self.put_count as nat
    }

    /// The post-state entries that the session was seeded with, consumed or
    /// not.
    pub closed spec fn entries(&self) -> Seq<Seq<(Seq<u8>, NodeView)>> {
        entries_view(self.post_state@)
    }

    /// What the invariant says of a session: a running session is its
    /// skeleton; the entries after the cursor are pending; the store is
    /// content-addressed; every node is well formed; and the root of a
    /// running session is a branch without a parent.
    pub proof fn lemma_inv(&self)
        requires
            self.inv(),
        ensures
            self@ is Ok ==> self@->Ok_0 == self.skeleton() && self.skeleton().root.is_root(),
            self.cursor() <= self.entries().len(),
            self.skeleton().pending == self.entries().skip(self.cursor() as int),
            store_wf(self.skeleton().store),
            self.skeleton().root.wf(),
            forall|i: int, j: int|
                0 <= i < self.entries().len() && 0 <= j < self.entries()[i].len() ==> (
                #[trigger] self.entries()[i][j]).1.wf(),
    {
        broadcast use vstd::array::array_len_matches_n;

        assert forall|i: int, j: int|
            0 <= i < self.entries().len() && 0 <= j < self.entries()[i].len() implies (
        #[trigger] self.entries()[i][j]).1.wf() by {
            assert(self.entries()[i] == entry_view(self.post_state@[i]@));
            assert(self.entries()[i][j].1 == self.post_state@[i]@[j].1@);
        }
    }

    /// A session over the skeleton with root `root` in the restricted store
    /// `db`, seeded with a bundle: its read pairs and its post-state. A root
    /// that is no branch, or that names a parent, makes the proof malformed.
    pub fn new(root: Node, db: TrieDB, bundle: PreStateAndPostState) -> (r: Result<
        TrieVerifyFraudProof,
        Error,
    >)
        requires
            db.wf(),
        ensures
            match r {
                Ok(s) => root@.is_root() && s.inv() && s.cursor() == 0 && s.entries()
                    == bundle@.post_state && s@ == Ok::<ReplayState, Error>(
                    ReplayState {
                        store: db@,
                        root: root@,
                        reads: bundle@.reads,
                        written: Seq::<Seq<u8>>::empty(),
                        pending: bundle@.post_state,
                    },
                ),
                Err(e) => !root@.is_root() && e == Error::MalformedProof,
            },
    {
        if !root.is_root() {
            return Err(Error::MalformedProof);
        }
        let s = TrieVerifyFraudProof {
            root,
            db,
            reads: bundle.pre_state.0,
            written: Vec::new(),
            post_state: bundle.post_state,
            put_count: 0,
            verdict: None,
        };
        assert(s.running().written =~= Seq::<Seq<u8>>::empty());
        assert(s.running().pending =~= bundle@.post_state);
        Ok(s)
    }

    /// A session that is seeded with a bundle: its store holds `held` and the
    /// nodes that the bundle's pre-state names, each taken from `source`. A
    /// hash that `source` cannot resolve makes the proof malformed, and so
    /// does a root that is no branch or names a parent.
    pub fn seeded(root: Node, source: &TrieDB, held: TrieDB, bundle: PreStateAndPostState) -> (r:
        Result<TrieVerifyFraudProof, Error>)
        requires
            source.wf(),
            held.wf(),
        ensures
            match r {
                Ok(s) => root@.is_root() && s.inv() && s.cursor() == 0 && s.entries()
                    == bundle@.post_state && s@ == session_of(source@, held@, root@, bundle@),
                Err(e) => e == Error::MalformedProof && (!root@.is_root() || session_of(
                    source@,
                    held@,
                    root@,
                    bundle@,
                ) is Err),
            },
    {
        if !root.is_root() {
            return Err(Error::MalformedProof);
        }
        match bundle.gather_pre_state(source, held) {
            Ok(db) => TrieVerifyFraudProof::new(root, db, bundle),
            Err(_) => Err(Error::MalformedProof),
        }
    }

    /// Ends the session with `e`.
    fn fail(&mut self, e: Error)
        requires
            old(self).inv(),
        ensures
            final(self).inv(),
            final(self)@ == Err::<ReplayState, Error>(e),
            final(self).skeleton() == old(self).skeleton(),
            final(self).cursor() == old(self).cursor(),
            final(self).entries() == old(self).entries(),
    {
        self.verdict = Some(e);
    }

    /// The hash of the skeleton's root, or the error that ended the session.
    pub fn get_root_hash(&self) -> (r: Result<Digest, Error>)
        ensures
            match self@ {
                Ok(s) => r == Ok::<Digest, Error>(s.root.hash()),
                Err(e) => r == Err::<Digest, Error>(e),
            },
    {
        match self.verdict {
            Some(e) => Err(e),
            None => Ok(self.root.hash()),
        }
    }

    /// An ordinary get against the skeleton. A hash that the skeleton cannot
    /// reach makes the proof malformed.
    pub fn get_as_normal(&self, key: &Vec<u8>) -> (r: Result<Vec<u8>, Error>)
        requires
            self.inv(),
            key_fits(key@),
        ensures
            result_view(r) == (match self@ {
                Ok(s) => match resolve(s.store, s.root, key@) {
                    Ok(v) => Ok(v),
                    Err(e) => Err(Error::MalformedProof),
                },
                Err(e) => Err(e),
            }),
    {
        if let Some(e) = self.verdict {
            return Err(e);
        }
        let path = key_as_nibbles(copy_bytes(key));
        proof {
            lemma_nibbles_are_path(key@);
        }
        match get_at(&self.db, &self.root, &path) {
            Ok(Some(v)) => Ok(v),
            Ok(None) => Ok(Vec::new()),
            Err(_) => Err(Error::MalformedProof),
        }
    }

    /// An ordinary put against the skeleton. A hash that the skeleton cannot
    /// reach makes the proof malformed and ends the session.
    pub fn put_as_normal(&mut self, key: &Vec<u8>, value: &Vec<u8>) -> (r: Result<(), Error>)
        requires
            old(self).inv(),
            key_fits(key@),
        ensures
            final(self).inv(),
            final(self)@ == (match old(self)@ {
                Ok(s) => match put_result(s.store, s.root, nibbles_of(key@), value@) {
                    Ok((store, root)) => Ok(ReplayState { store, root, ..s }),
                    Err(e) => Err(Error::MalformedProof),
                },
                Err(e) => Err(e),
            }),
            final(self)@ is Ok <==> r is Ok,
            r is Err ==> final(self)@ == Err::<ReplayState, Error>(r->Err_0),
            r is Err ==> final(self).skeleton() == old(self).skeleton(),
            final(self).cursor() == old(self).cursor(),
            final(self).entries() == old(self).entries(),
    {
        if let Some(e) = self.verdict {
            return Err(e);
        }
        let path = key_as_nibbles(copy_bytes(key));
        proof {
            lemma_nibbles_are_path(key@);
        }
        match put_at(&mut self.db, &self.root, &path, copy_bytes(value)) {
            Ok(root) => {
                self.root = root;
                Ok(())
            },
            Err(_) => {
                self.fail(Error::MalformedProof);
                Err(Error::MalformedProof)
            },
        }
    }

    /// Installs one post-state node on the descent path of `key`. A node that
    /// is none of the nodes that the skeleton expects on the path is a hash
    /// mismatch and ends the session.
    pub fn put_proof_node(&mut self, key: &Vec<u8>, node: Node) -> (r: Result<(), Error>)
        requires
            old(self).inv(),
            key_fits(key@),
        ensures
            final(self).inv(),
            final(self)@ == (match old(self)@ {
                Ok(s) => match install_result(s.store, s.root, nibbles_of(key@), node@) {
                    Ok((store, root)) => Ok(ReplayState { store, root, ..s }),
                    Err(e) => Err(e),
                },
                Err(e) => Err(e),
            }),
            final(self)@ is Ok <==> r is Ok,
            r is Err ==> final(self)@ == Err::<ReplayState, Error>(r->Err_0),
            r is Err ==> final(self).skeleton() == old(self).skeleton(),
            final(self).cursor() == old(self).cursor(),
            final(self).entries() == old(self).entries(),
    {
        if let Some(e) = self.verdict {
            return Err(e);
        }
        let path = key_as_nibbles(copy_bytes(key));
        proof {
            lemma_nibbles_are_path(key@);
        }
        let root = self.root.clone();
        match install_at(&mut self.db, root, &path, node) {
            Ok(top) => {
                self.root = top;
                Ok(())
            },
            Err(e) => {
                self.fail(e);
                Err(e)
            },
        }
    }

    /// The boundary path and the root of the stray trie of a put: the nearest
    /// branch above the key's position that the skeleton holds.
    pub fn get_stray_trie_root_of_put(&self, put_key: &Vec<u8>) -> (r: Result<
        (Nibbles, Node),
        Error,
    >)
        requires
            self.inv(),
            key_fits(put_key@),
        ensures
            match self@ {
                Ok(s) => r is Ok && r->Ok_0.0@ == stray_boundary(
                    s.store,
                    s.root,
                    nibbles_of(put_key@),
                ) && r->Ok_0.1@ == stray_root(s.store, s.root, nibbles_of(put_key@)),
                Err(e) => r is Err && r->Err_0 == e,
            },
    {
        if let Some(e) = self.verdict {
            return Err(e);
        }
        let path = key_as_nibbles(copy_bytes(put_key));
        proof {
            lemma_nibbles_are_path(put_key@);
        }
        Ok(stray_trie_root(&self.db, &self.root, &path))
    }

}

/// Loads the nodes of an entry under `boundary`, in order, and returns the
/// root that results. Whatever the outcome, the store keeps every node that
/// it held.
pub fn load_entry(db: &mut TrieDB, root: Node, entry: &Entry, boundary: &Nibbles) -> (r: Result<
    Node,
    Error,
>)
    requires
        old(db).wf(),
    ensures
        final(db).wf(),
        match load(old(db)@, root@, boundary@, entry_view(entry@)) {
            Ok((store, top)) => r is Ok && r->Ok_0@ == top && final(db)@ == store,
            Err(e) => r == Err::<Node, Error>(e),
        },
        root@.is_root() && r is Ok ==> r->Ok_0@.is_root(),
        within(old(db)@, final(db)@),
        final(db).grown_from(*old(db)),
{
    let ghost whole = entry_view(entry@);
    proof {
        db.lemma_grown_same();
    }
    let ghost store0 = db@;
    let ghost root0 = root@;
    let mut top = root;
    let mut i: usize = 0;
    assert(whole.skip(0) =~= whole);
    while i < entry.len()
        invariant
            db.wf(),
            i <= entry@.len(),
            whole == entry_view(entry@),
            store0 == old(db)@,
            root0 == root@,
            root0.is_root() ==> top@.is_root(),
            within(store0, db@),
            db.grown_from(*old(db)),
            load(db@, top@, boundary@, whole.skip(i as int)) == load(
                store0,
                root0,
                boundary@,
                whole,
            ),
        decreases entry@.len() - i,
    {
        let ghost rest = whole.skip(i as int);
        assert(rest.len() > 0);
        assert(rest[0] == (entry@[i as int].0@, entry@[i as int].1@));
        assert(rest.skip(1) =~= whole.skip(i + 1));
        let node_key = copy_bytes(&entry[i].0);
        if node_key.len() > (usize::MAX - 1) / 2 {
            return Err(Error::MalformedProof);
        }
        let node_path = key_as_nibbles(node_key);
        if !b_extends_a(boundary, &node_path) {
            return Err(Error::MalformedProof);
        }
        proof {
            lemma_nibbles_are_path(rest[0].0);
        }
        let ghost before = db@;
        let ghost mid = *db;
        match install_at(db, top, &node_path, entry[i].1.clone()) {
            Ok(next) => {
                top = next;
                proof {
                    db.lemma_grown_on(mid, *old(db));
                }
                assert(within(store0, db@)) by {
                    assert forall|h: Digest| #[trigger]
                        store0.contains_key(h) implies db@.contains_key(h) && db@[h]
                        == store0[h] by {
                        assert(before.contains_key(h));
                    }
                }
            },
            Err(e) => {
                proof {
                    db.lemma_grown_on(mid, *old(db));
                }
                return Err(e);
            },
        }
        i += 1;
    }
    Ok(top)
}

/// Tells whether every key of an entry fits this machine and extends
/// `boundary`.
pub fn keys_extend(entry: &Entry, boundary: &Nibbles) -> (r: bool)
    ensures
        r == all_extend(boundary@, entry_view(entry@)),
{
    let ghost whole = entry_view(entry@);
    let mut i: usize = 0;
    while i < entry.len()
        invariant
            i <= entry@.len(),
            whole == entry_view(entry@),
            forall|j: int|
                0 <= j < i ==> key_fits((#[trigger] whole[j]).0) && extends(
                    boundary@,
                    nibbles_of(whole[j].0),
                ),
        decreases entry@.len() - i,
    {
        assert(whole[i as int] == (entry@[i as int].0@, entry@[i as int].1@));
        if entry[i].0.len() > (usize::MAX - 1) / 2 {
            return false;
        }
        let node_path = key_as_nibbles(copy_bytes(&entry[i].0));
        if !b_extends_a(boundary, &node_path) {
            return false;
        }
        i += 1;
    }
    true
}

/// Replays one write against the skeleton, checked against its entry, and
/// returns the new root. Whatever the outcome, the store keeps every node
/// that it held.
pub fn replay_write(
    db: &mut TrieDB,
    root: &Node,
    entry: &Entry,
    key: &Vec<u8>,
    value: Vec<u8>,
) -> (r: Result<Node, Error>)
    requires
        old(db).wf(),
        key_fits(key@),
    ensures
        final(db).wf(),
        match checked_write(old(db)@, root@, entry_view(entry@), key@, value@) {
            Ok((store, top)) => r is Ok && r->Ok_0@ == top && final(db)@ == store,
            Err(e) => r == Err::<Node, Error>(e),
        },
        root@.is_root() && r is Ok ==> r->Ok_0@.is_root(),
        within(old(db)@, final(db)@),
        final(db).grown_from(*old(db)),
{
    let ghost store0 = db@;
    proof {
        db.lemma_grown_same();
    }
    let path = key_as_nibbles(copy_bytes(key));
    proof {
        lemma_nibbles_are_path(key@);
    }
    let (boundary, stray) = stray_trie_root(db, root, &path);
    let before = stray.hash();
    if !keys_extend(entry, &boundary) {
        return Err(Error::MalformedProof);
    }
    let top = match load_entry(db, root.clone(), entry, &boundary) {
        Ok(top) => top,
        Err(e) => {
            return Err(e);
        },
    };
    let kept = match find_node(db, &top, &boundary) {
        Some(n) => n.hash() == before,
        None => false,
    };
    if !kept {
        return Err(Error::HashMismatch);
    }
    let ghost loaded = db@;
    let ghost mid = *db;
    let written = put_at(db, &top, &path, value);
    proof {
        db.lemma_grown_on(mid, *old(db));
        assert forall|h: Digest| #[trigger] store0.contains_key(h) implies db@.contains_key(h)
            && db@[h] == store0[h] by {
            assert(loaded.contains_key(h));
        }
    }
    match written {
        Ok(next) => Ok(next),
        Err(_) => Err(Error::MalformedProof),
    }
}

impl Trie for TrieVerifyFraudProof {
    open spec fn wf(&self) -> bool {
        self.inv()
    }

    /// A replayed get: the completeness check, then an ordinary get against
    /// the skeleton. Any failure ends the session.
    fn get(&mut self, key: Vec<u8>) -> (r: Result<Vec<u8>, Error>)
        ensures
            result_view(r) == (match old(self)@ {
                Ok(s) => replay_get(s, key@),
                Err(e) => Err(e),
            }),
            final(self)@ == (match result_view(r) {
                Ok(v) => old(self)@,
                Err(e) => Err(e),
            }),
            final(self).skeleton() == old(self).skeleton(),
            final(self).cursor() == old(self).cursor(),
            final(self).entries() == old(self).entries(),
    {
        if let Some(e) = self.verdict {
            return Err(e);
        }
        if !has_key(&self.reads, &key) && !holds_key(&self.written, &key) {
            self.fail(Error::IncompletePreState);
            return Err(Error::IncompletePreState);
        }
        match self.get_as_normal(&key) {
            Ok(v) => Ok(v),
            Err(e) => {
                self.fail(e);
                Err(e)
            },
        }
    }

    /// A replayed put: checks the write against the entry at the cursor,
    /// applies it and advances the cursor. Any failure ends the session and
    /// leaves the skeleton and the cursor as they were: the write is not
    /// applied, and nothing of the entry stays loaded.
    fn put(&mut self, key: Vec<u8>, value: Vec<u8>) -> (r: Result<(), Error>)
        ensures
            final(self)@ == (match old(self)@ {
                Ok(s) => replay_put(s, key@, value@),
                Err(e) => Err(e),
            }),
            match final(self)@ {
                Ok(s) => r is Ok,
                Err(e) => r == Err::<(), Error>(e),
            },
            final(self).entries() == old(self).entries(),
            r is Ok ==> final(self).cursor() == old(self).cursor() + 1,
            r is Err ==> final(self).cursor() == old(self).cursor() && final(self).skeleton()
                == old(self).skeleton(),
    {
        if let Some(e) = self.verdict {
            return Err(e);
        }
        if self.put_count >= self.post_state.len() {
            self.fail(Error::MalformedProof);
            return Err(Error::MalformedProof);
        }
        // How many nodes the store holds now, to go back to should the write
        // be rejected.
        let held: usize = self.db.len();
        let ghost before = self.db;
        let ghost entries = entries_view(self.post_state@);
        assert(entries.skip(self.put_count as int)[0] == entry_view(
            self.post_state@[self.put_count as int]@,
        ));
        match replay_write(
            &mut self.db,
            &self.root,
            &self.post_state[self.put_count],
            &key,
            value,
        ) {
            Ok(root) => {
                let ghost written = keys_view(self.written@);
                self.root = root;
                self.written.push(key);
                self.put_count = self.put_count + 1;
                proof {
                    assert(keys_view(self.written@) =~= written.push(key@));
                    assert(entries.skip(self.put_count as int) =~= entries.skip(
                        self.put_count - 1,
                    ).skip(1));
                }
                Ok(())
            },
            Err(e) => {
                proof {
                    self.db.lemma_grown_size(before);
                }
                self.db.rollback(held);
                assert(self.db@ == before@ && self.db.wf());
                self.fail(e);
                Err(e)
            },
        }
    }
}

} // verus!
