//! What a replay session accepts is what the trie gives: unless hashes
//! collide, an accepted log leaves the root that the trie's own run of the
//! log leaves, and its gets are answered as the trie answers them.

use vstd::prelude::*;
use crate::capture::resolve;
use crate::completeness::{run_log, trie_answers};
use crate::db::{store_put, store_wf};
use crate::descent::{
    climb, expected, install_result, lemma_install_expected, lemma_install_grows, lemma_put_grows,
    lookup, put_result, steps_down, stray_boundary, walk, within,
};
use crate::digest::{null_hash, Digest};
use crate::honest::{lemma_put_wf, lemma_same_content};
use crate::nibbles::{lemma_nibbles_are_path, nibbles_of};
use crate::node::NodeView;
use crate::replay::{
    checked_write, load, replay, replay_answers, replay_get, replay_put, Op, ReplayState,
};
use crate::semantics::{base_at, lemma_lookup_here, lemma_lookup_step, same_content};

verus! {

/// Whether two stores hold no two different nodes under one hash.
pub open spec fn agrees(a: Map<Digest, NodeView>, b: Map<Digest, NodeView>) -> bool {
    forall|h: Digest| #[trigger]
        a.contains_key(h) ==> (b.contains_key(h) ==> same_content(a[h], b[h]))
}

/// Two descents that find their answers, from nodes with the same content
/// in stores that agree, meet nodes with the same content and find the same
/// answer.
pub proof fn lemma_agreeing_walks(
    held: Map<Digest, NodeView>,
    full: Map<Digest, NodeView>,
    a: NodeView,
    b: NodeView,
    path: Seq<u8>,
)
    requires
        agrees(held, full),
        same_content(a, b),
        lookup(held, a, path) is Ok,
        lookup(full, b, path) is Ok,
    ensures
        walk(held, a, path).len() == walk(full, b, path).len(),
        forall|i: int|
            0 <= i < walk(held, a, path).len() ==> same_content(
                #[trigger] walk(held, a, path)[i],
                walk(full, b, path)[i],
            ),
        lookup(held, a, path) == lookup(full, b, path),
    decreases path.len(),
{
    lemma_same_content(a, b);
    let w = walk(held, a, path);
    let t = walk(full, b, path);
    if path.len() > 0 && steps_down(held, a, path[0]) {
        let h = a.slot(path[0] as int);
        assert(b.slot(path[0] as int) == h);
        if steps_down(full, b, path[0]) {
            lemma_lookup_step(held, a, path);
            lemma_lookup_step(full, b, path);
            assert(held.contains_key(h));
            lemma_agreeing_walks(held, full, held[h], full[h], path.skip(1));
            let w2 = walk(held, held[h], path.skip(1));
            let t2 = walk(full, full[h], path.skip(1));
            assert(w =~= seq![a] + w2);
            assert(t =~= seq![b] + t2);
            assert forall|i: int| 0 <= i < w.len() implies same_content(#[trigger] w[i], t[i]) by {
                if i > 0 {
                    assert(w[i] == w2[i - 1]);
                    assert(t[i] == t2[i - 1]);
                }
            }
        } else {
            lemma_lookup_here(full, b, path);
        }
    } else {
        lemma_lookup_here(held, a, path);
        if path.len() > 0 && steps_down(full, b, path[0]) {
            assert(a.slot(path[0] as int) == b.slot(path[0] as int));
        } else {
            lemma_lookup_here(full, b, path);
            assert(w =~= seq![a]);
            assert(t =~= seq![b]);
        }
    }
}

/// Two rewrites that start from nodes with the same content, above trails
/// with the same content, reach the same root, whatever their stores hold.
pub proof fn lemma_climb_same_root(
    held: Map<Digest, NodeView>,
    full: Map<Digest, NodeView>,
    w: Seq<NodeView>,
    t: Seq<NodeView>,
    path: Seq<u8>,
    i: int,
    a: NodeView,
    b: NodeView,
)
    requires
        same_content(a, b),
        forall|j: int| 0 <= j < i ==> same_content(#[trigger] base_at(w, j), base_at(t, j)),
    ensures
        climb(held, w, path, i, a).1 == climb(full, t, path, i, b).1,
    decreases i,
{
    lemma_same_content(a, b);
    if i > 0 {
        let h = a.hash();
        let up_a = base_at(w, i - 1).with_slot(path[i - 1] as int, h);
        let up_b = base_at(t, i - 1).with_slot(path[i - 1] as int, h);
        lemma_same_content(base_at(w, i - 1), base_at(t, i - 1));
        lemma_climb_same_root(
            store_put(held, h, a.with_parent(Some(up_a.hash()))),
            store_put(full, h, b.with_parent(Some(up_b.hash()))),
            w,
            t,
            path,
            i - 1,
            up_a,
            up_b,
        );
    }
}

/// Whether every node of an entry is well formed.
pub open spec fn nodes_wf(entry: Seq<(Seq<u8>, NodeView)>) -> bool {
    forall|i: int| 0 <= i < entry.len() ==> (#[trigger] entry[i]).1.wf()
}

/// A load changes nothing of the root but its parent reference: every node
/// that it installs is the node that the slot above it names. It only adds
/// to the store, and keeps it content-addressed.
pub proof fn lemma_load_keeps_root(
    store: Map<Digest, NodeView>,
    root: NodeView,
    boundary: Seq<u8>,
    entry: Seq<(Seq<u8>, NodeView)>,
)
    requires
        store_wf(store),
        root.wf(),
        nodes_wf(entry),
        load(store, root, boundary, entry) is Ok,
    ensures
        same_content(load(store, root, boundary, entry)->Ok_0.1, root),
        store_wf(load(store, root, boundary, entry)->Ok_0.0),
        load(store, root, boundary, entry)->Ok_0.1.wf(),
        within(store, load(store, root, boundary, entry)->Ok_0.0),
    decreases entry.len(),
{
    if entry.len() > 0 {
        let path = nibbles_of(entry[0].0);
        let node = entry[0].1;
        lemma_nibbles_are_path(entry[0].0);
        assert(install_result(store, root, path, node) is Ok);
        assert(expected(store, root, path, node));
        lemma_install_expected(store, root, path, node);
        let next = install_result(store, root, path, node)->Ok_0;
        assert forall|i: int| 0 <= i < entry.skip(1).len() implies (#[trigger] entry.skip(
            1,
        )[i]).1.wf() by {
            assert(entry.skip(1)[i] == entry[i + 1]);
        }
        lemma_load_keeps_root(next.0, next.1, boundary, entry.skip(1));
        let last = load(store, root, boundary, entry)->Ok_0;
        assert forall|h: Digest| #[trigger] store.contains_key(h) implies last.0.contains_key(h)
            && last.0[h] == store[h] by {
            assert(next.0.contains_key(h));
        }
    }
}

/// A write can be applied exactly where a lookup along its path finds an
/// answer.
pub proof fn lemma_put_where_lookup(
    store: Map<Digest, NodeView>,
    root: NodeView,
    path: Seq<u8>,
    value: Seq<u8>,
)
    ensures
        put_result(store, root, path, value) is Ok <==> lookup(store, root, path) is Ok,
{
}

/// A write that a skeleton accepts leaves the root that the write leaves in
/// a trie with the same root: the skeleton's store after the load has to
/// agree with the trie's store.
pub proof fn law_accepted_write_follows_the_trie(
    full: Map<Digest, NodeView>,
    top: NodeView,
    held: Map<Digest, NodeView>,
    root: NodeView,
    entry: Seq<(Seq<u8>, NodeView)>,
    key: Seq<u8>,
    value: Seq<u8>,
)
    requires
        store_wf(held),
        root.wf(),
        same_content(root, top),
        checked_write(held, root, entry, key, value) is Ok,
        put_result(full, top, nibbles_of(key), value) is Ok,
        nodes_wf(entry),
        agrees(
            load(held, root, stray_boundary(held, root, nibbles_of(key)), entry)->Ok_0.0,
            full,
        ),
    ensures
        checked_write(held, root, entry, key, value)->Ok_0.1 == put_result(
            full,
            top,
            nibbles_of(key),
            value,
        )->Ok_0.1,
        store_wf(checked_write(held, root, entry, key, value)->Ok_0.0),
        checked_write(held, root, entry, key, value)->Ok_0.1.wf(),
        within(held, checked_write(held, root, entry, key, value)->Ok_0.0),
        within(
            load(held, root, stray_boundary(held, root, nibbles_of(key)), entry)->Ok_0.0,
            checked_write(held, root, entry, key, value)->Ok_0.0,
        ),
{
    let path = nibbles_of(key);
    let boundary = stray_boundary(held, root, path);
    lemma_nibbles_are_path(key);
    lemma_load_keeps_root(held, root, boundary, entry);
    let loaded = load(held, root, boundary, entry)->Ok_0;
    lemma_put_where_lookup(loaded.0, loaded.1, path, value);
    lemma_put_where_lookup(full, top, path, value);
    lemma_agreeing_walks(loaded.0, full, loaded.1, top, path);
    let w = walk(loaded.0, loaded.1, path);
    let t = walk(full, top, path);
    let d = t.len() - 1;
    lemma_same_content(w[d], t[d]);
    assert forall|j: int| 0 <= j < path.len() implies same_content(
        #[trigger] base_at(w, j),
        base_at(t, j),
    ) by {
        if j < t.len() {
            lemma_same_content(w[j], t[j]);
        }
    }
    let a = if d == path.len() {
        w.last().with_value(value)
    } else {
        NodeView::Leaf { value, parent: null_hash() }
    };
    let b = if d == path.len() {
        t.last().with_value(value)
    } else {
        NodeView::Leaf { value, parent: null_hash() }
    };
    assert(same_content(a, b));
    lemma_climb_same_root(loaded.0, full, w, t, path, path.len() as int, a, b);
    lemma_put_wf(loaded.0, loaded.1, path, value);
    lemma_put_grows(loaded.0, loaded.1, path, value);
    let last = put_result(loaded.0, loaded.1, path, value)->Ok_0.0;
    assert forall|h: Digest| #[trigger] held.contains_key(h) implies last.contains_key(h)
        && last[h] == held[h] by {
        assert(loaded.0.contains_key(h));
    }
}

/// Whether every node of every pending entry of a session is well formed.
pub open spec fn pending_wf(v: ReplayState) -> bool {
    forall|i: int| 0 <= i < v.pending.len() ==> nodes_wf(#[trigger] v.pending[i])
}

/// Whether a trie answers every get of a log, as the writes of the log
/// before the get left it.
pub open spec fn gets_resolve(store: Map<Digest, NodeView>, root: NodeView, ops: Seq<Op>) -> bool
    decreases ops.len(),
{
    ops.len() == 0 || match ops[0] {
        Op::Get { key } => resolve(store, root, key) is Ok && gets_resolve(
            store,
            root,
            ops.skip(1),
        ),
        Op::Put { key, value } => match put_result(store, root, nibbles_of(key), value) {
            Ok((s, r)) => gets_resolve(s, r, ops.skip(1)),
            Err(e) => true,
        },
    }
}

/// A replay only adds to the store of the session.
pub proof fn lemma_replay_grows(v: ReplayState, ops: Seq<Op>)
    requires
        replay(v, ops) is Ok,
    ensures
        within(v.store, replay(v, ops)->Ok_0.store),
    decreases ops.len(),
{
    if ops.len() > 0 {
        match ops[0] {
            Op::Get { key } => {
                lemma_replay_grows(v, ops.skip(1));
            },
            Op::Put { key, value } => {
                let path = nibbles_of(key);
                let boundary = stray_boundary(v.store, v.root, path);
                let next = replay_put(v, key, value)->Ok_0;
                lemma_load_grows(v.store, v.root, boundary, v.pending[0]);
                let loaded = load(v.store, v.root, boundary, v.pending[0])->Ok_0;
                lemma_put_grows(loaded.0, loaded.1, path, value);
                lemma_replay_grows(next, ops.skip(1));
                let last = replay(v, ops)->Ok_0.store;
                assert forall|h: Digest| #[trigger]
                    v.store.contains_key(h) implies last.contains_key(h) && last[h]
                    == v.store[h] by {
                    assert(loaded.0.contains_key(h));
                    assert(next.store.contains_key(h));
                }
            },
        }
    }
}

/// A load only adds to the store.
pub proof fn lemma_load_grows(
    store: Map<Digest, NodeView>,
    root: NodeView,
    boundary: Seq<u8>,
    entry: Seq<(Seq<u8>, NodeView)>,
)
    requires
        load(store, root, boundary, entry) is Ok,
    ensures
        within(store, load(store, root, boundary, entry)->Ok_0.0),
    decreases entry.len(),
{
    if entry.len() > 0 {
        let path = nibbles_of(entry[0].0);
        lemma_install_grows(store, root, path, entry[0].1);
        let next = install_result(store, root, path, entry[0].1)->Ok_0;
        lemma_load_grows(next.0, next.1, boundary, entry.skip(1));
        let last = load(store, root, boundary, entry)->Ok_0.0;
        assert forall|h: Digest| #[trigger] store.contains_key(h) implies last.contains_key(h)
            && last[h] == store[h] by {
            assert(next.0.contains_key(h));
        }
    }
}

/// The run of a log only adds to the store of the trie.
pub proof fn lemma_run_grows(store: Map<Digest, NodeView>, root: NodeView, ops: Seq<Op>)
    requires
        run_log(store, root, ops) is Ok,
    ensures
        within(store, run_log(store, root, ops)->Ok_0.0),
    decreases ops.len(),
{
    if ops.len() > 0 {
        match ops[0] {
            Op::Get { key } => {
                lemma_run_grows(store, root, ops.skip(1));
            },
            Op::Put { key, value } => {
                let next = put_result(store, root, nibbles_of(key), value)->Ok_0;
                lemma_put_grows(store, root, nibbles_of(key), value);
                lemma_run_grows(next.0, next.1, ops.skip(1));
                let last = run_log(store, root, ops)->Ok_0.0;
                assert forall|h: Digest| #[trigger] store.contains_key(h) implies last.contains_key(
                    h,
                ) && last[h] == store[h] by {
                    assert(next.0.contains_key(h));
                }
            },
        }
    }
}

/// Stores that are held within stores that agree agree.
pub proof fn lemma_agrees_within(
    a: Map<Digest, NodeView>,
    b: Map<Digest, NodeView>,
    more_a: Map<Digest, NodeView>,
    more_b: Map<Digest, NodeView>,
)
    requires
        within(a, more_a),
        within(b, more_b),
        agrees(more_a, more_b),
    ensures
        agrees(a, b),
{
    assert forall|h: Digest| #[trigger] a.contains_key(h) && b.contains_key(h) implies same_content(
        a[h],
        b[h],
    ) by {
        assert(more_a.contains_key(h));
        assert(more_b.contains_key(h));
    }
}

/// What a replay session accepts is what the trie gives. Where a session
/// whose root has the content of a trie's root replays a log without an
/// error, and the trie runs the log and answers its gets, the session ends
/// with the root that the trie's run ends with, and it has answered every
/// get as the trie does. What the session holds in the end has to agree with
/// what the trie holds in the end: no two different nodes under one hash.
pub proof fn law_accepted_log_follows_the_trie(
    full: Map<Digest, NodeView>,
    top: NodeView,
    v: ReplayState,
    ops: Seq<Op>,
)
    requires
        store_wf(v.store),
        v.root.wf(),
        same_content(v.root, top),
        replay(v, ops) is Ok,
        run_log(full, top, ops) is Ok,
        gets_resolve(full, top, ops),
        pending_wf(v),
        agrees(replay(v, ops)->Ok_0.store, run_log(full, top, ops)->Ok_0.0),
    ensures
        same_content(replay(v, ops)->Ok_0.root, run_log(full, top, ops)->Ok_0.1),
        replay(v, ops)->Ok_0.root.hash() == run_log(full, top, ops)->Ok_0.1.hash(),
        replay_answers(v, ops) == trie_answers(full, top, ops),
    decreases ops.len(),
{
    let last_v = replay(v, ops)->Ok_0;
    let last_t = run_log(full, top, ops)->Ok_0;
    lemma_replay_grows(v, ops);
    lemma_run_grows(full, top, ops);
    if ops.len() == 0 {
        lemma_same_content(v.root, top);
    } else {
        let rest = ops.skip(1);
        match ops[0] {
            Op::Get { key } => {
                lemma_agrees_within(v.store, full, last_v.store, last_t.0);
                assert(replay_get(v, key) is Ok);
                lemma_agreeing_walks(v.store, full, v.root, top, nibbles_of(key));
                assert(replay_get(v, key) == resolve(full, top, key));
                law_accepted_log_follows_the_trie(full, top, v, rest);
            },
            Op::Put { key, value } => {
                let path = nibbles_of(key);
                let boundary = stray_boundary(v.store, v.root, path);
                let next = replay_put(v, key, value)->Ok_0;
                let applied = put_result(full, top, path, value)->Ok_0;
                let loaded = load(v.store, v.root, boundary, v.pending[0])->Ok_0;
                lemma_replay_grows(next, rest);
                lemma_load_grows(v.store, v.root, boundary, v.pending[0]);
                lemma_put_grows(loaded.0, loaded.1, path, value);
                assert(within(loaded.0, last_v.store)) by {
                    assert forall|h: Digest| #[trigger]
                        loaded.0.contains_key(h) implies last_v.store.contains_key(h)
                        && last_v.store[h] == loaded.0[h] by {
                        assert(next.store.contains_key(h));
                    }
                }
                lemma_agrees_within(loaded.0, full, last_v.store, last_t.0);
                law_accepted_write_follows_the_trie(
                    full,
                    top,
                    v.store,
                    v.root,
                    v.pending[0],
                    key,
                    value,
                );
                assert(next.root == applied.1);
                assert(pending_wf(next)) by {
                    assert forall|i: int| 0 <= i < next.pending.len() implies nodes_wf(
                        #[trigger] next.pending[i],
                    ) by {
                        assert(next.pending[i] == v.pending[i + 1]);
                    }
                }
                law_accepted_log_follows_the_trie(applied.0, applied.1, next, rest);
            },
        }
    }
}

} // verus!
