//! The bundle that an honest capture session derives replays: the replay
//! session accepts the log that the capture session ran, and reaches the
//! root that the capture session reaches.

use vstd::prelude::*;
use crate::bundle::{gather, minimize_entries, trusted_after, BundleView};
use crate::capture::{
    apply_writes, capture_get, capture_put, derived_bundle, entries_after, latest_write,
    path_hashes, path_nodes, pre_hashes, recorded, resolve, start_of, CaptureState,
};
use crate::db::{store_put, store_wf};
use crate::descent::{
    lemma_boundary, lemma_walk, lemma_walk_nodes, lookup, put_result, steps_down, stray_boundary,
    walk, within,
};
use crate::digest::{null_hash, Digest};
use crate::error::Error;
use crate::honest::{
    law_honest_write_is_accepted, lemma_climb_alike, lemma_honest_rest, lemma_put_wf,
    lemma_same_content, lemma_walk_part, part_of,
};
use crate::laws::{law_minimized_bundle_replays_alike, law_valid_entry_keeps_hash, minimized};
use crate::nibbles::{
    is_path, key_fits, law_distinct_keys_have_distinct_paths, lemma_nibbles_are_path, nibbles_of,
};
use crate::node::NodeView;
use crate::replay::{
    checked_write, known_key, load, replay, replay_answers, replay_get, replay_put, replay_step,
    session_of, Op, ReplayState,
};
use crate::semantics::{
    base_at, law_get_after_put_returns_the_value, law_put_keeps_other_values,
    lemma_lookup_reparented, lemma_lookup_stable, same_content, writes_cleanly,
};

verus! {

/// The writes of a log, in order.
pub open spec fn puts_of(ops: Seq<Op>) -> Seq<(Seq<u8>, Seq<u8>)>
    decreases ops.len(),
{
    if ops.len() == 0 {
        Seq::<(Seq<u8>, Seq<u8>)>::empty()
    } else {
        match ops[0] {
            Op::Get { key } => puts_of(ops.skip(1)),
            Op::Put { key, value } => seq![(key, value)] + puts_of(ops.skip(1)),
        }
    }
}

/// The trie after the writes of a log were applied in order, with one entry
/// per write: the path nodes of the written key immediately before the write.
pub open spec fn run_log(store: Map<Digest, NodeView>, root: NodeView, ops: Seq<Op>) -> Result<
    (Map<Digest, NodeView>, NodeView, Seq<Seq<(Seq<u8>, NodeView)>>),
    Error,
>
    decreases ops.len(),
{
    if ops.len() == 0 {
        Ok((store, root, Seq::<Seq<(Seq<u8>, NodeView)>>::empty()))
    } else {
        match ops[0] {
            Op::Get { key } => run_log(store, root, ops.skip(1)),
            Op::Put { key, value } => match put_result(store, root, nibbles_of(key), value) {
                Err(e) => Err(e),
                Ok((s, r)) => entries_after(
                    seq![path_nodes(store, root, key)],
                    run_log(s, r, ops.skip(1)),
                ),
            },
        }
    }
}

/// Whether every key of a log fits this machine and no write of the log
/// meets a collision when it is applied in its turn.
pub open spec fn log_clean(store: Map<Digest, NodeView>, root: NodeView, ops: Seq<Op>) -> bool
    decreases ops.len(),
{
    ops.len() == 0 || match ops[0] {
        Op::Get { key } => key_fits(key) && log_clean(store, root, ops.skip(1)),
        Op::Put { key, value } => key_fits(key) && match put_result(
            store,
            root,
            nibbles_of(key),
            value,
        ) {
            Err(e) => true,
            Ok((s, r)) => writes_cleanly(store, root, nibbles_of(key), value) && log_clean(
                s,
                r,
                ops.skip(1),
            ),
        },
    }
}

/// Whether every get of a log reads a key that the pre-state holds or that
/// was written before the get, in the log or before it.
pub open spec fn gets_known(
    reads: Seq<(Seq<u8>, Seq<u8>)>,
    written: Seq<Seq<u8>>,
    ops: Seq<Op>,
) -> bool
    decreases ops.len(),
{
    ops.len() == 0 || match ops[0] {
        Op::Get { key } => (recorded(reads, key) || written.contains(key))
            && gets_known(reads, written, ops.skip(1)),
        Op::Put { key, value } => gets_known(reads, written.push(key), ops.skip(1)),
    }
}

/// Whether the skeleton of a replay session answers every key that the
/// session may read, with the answer that the capture session gives.
pub open spec fn answers_like(v: ReplayState, s: CaptureState) -> bool {
    forall|k: Seq<u8>| #[trigger]
        known_key(v, k) ==> {
            &&& key_fits(k)
            &&& resolve(v.store, v.root, k) is Ok
            &&& resolve(v.store, v.root, k) == capture_get(s, k).1
        }
}

/// What the gets of a log return from a capture session, in order.
pub open spec fn capture_answers(s: CaptureState, ops: Seq<Op>) -> Seq<Result<Seq<u8>, Error>>
    decreases ops.len(),
{
    if ops.len() == 0 {
        Seq::<Result<Seq<u8>, Error>>::empty()
    } else {
        match ops[0] {
            Op::Get { key } => seq![capture_get(s, key).1] + (match capture_get(s, key).1 {
                Ok(v) => capture_answers(capture_get(s, key).0, ops.skip(1)),
                Err(e) => Seq::<Result<Seq<u8>, Error>>::empty(),
            }),
            Op::Put { key, value } => capture_answers(capture_put(s, key, value), ops.skip(1)),
        }
    }
}

/// What a trie answers to the gets of a log, each get against the trie as
/// the writes of the log before it left it.
pub open spec fn trie_answers(store: Map<Digest, NodeView>, root: NodeView, ops: Seq<Op>) -> Seq<
    Result<Seq<u8>, Error>,
>
    decreases ops.len(),
{
    if ops.len() == 0 {
        Seq::<Result<Seq<u8>, Error>>::empty()
    } else {
        match ops[0] {
            Op::Get { key } => seq![resolve(store, root, key)] + trie_answers(
                store,
                root,
                ops.skip(1),
            ),
            Op::Put { key, value } => match put_result(store, root, nibbles_of(key), value) {
                Ok((s, r)) => trie_answers(s, r, ops.skip(1)),
                Err(e) => Seq::<Result<Seq<u8>, Error>>::empty(),
            },
        }
    }
}

/// Running a log is applying its writes.
pub proof fn lemma_run_log(store: Map<Digest, NodeView>, root: NodeView, ops: Seq<Op>)
    ensures
        run_log(store, root, ops) == apply_writes(store, root, puts_of(ops)),
    decreases ops.len(),
{
    if ops.len() > 0 {
        match ops[0] {
            Op::Get { key } => {
                lemma_run_log(store, root, ops.skip(1));
            },
            Op::Put { key, value } => {
                let writes = puts_of(ops);
                assert(writes[0] == (key, value));
                assert(writes.skip(1) =~= puts_of(ops.skip(1)));
                match put_result(store, root, nibbles_of(key), value) {
                    Err(e) => {},
                    Ok((s, r)) => {
                        lemma_run_log(s, r, ops.skip(1));
                    },
                }
            },
        }
    }
}

/// A lookup that finds its answer in a skeleton finds the same answer after
/// the skeleton's store has grown and its root has lost its parent reference.
pub proof fn lemma_lookup_after_load(
    store: Map<Digest, NodeView>,
    root: NodeView,
    more: Map<Digest, NodeView>,
    top: NodeView,
    q: Seq<u8>,
)
    requires
        within(store, more),
        same_content(top, root),
        lookup(store, root, q) is Ok,
    ensures
        lookup(more, top, q) == lookup(store, root, q),
{
    lemma_lookup_stable(store, more, root, q);
    lemma_lookup_reparented(more, root, None, q);
    lemma_lookup_reparented(more, top, None, q);
}

/// The write that a session applies, replayed with the entry that the session
/// derives for it against a skeleton that is a part of the session's trie:
/// afterwards the skeleton answers the written path with the written value,
/// and every other path that it answered before as before.
pub proof fn lemma_honest_write_answers(
    full: Map<Digest, NodeView>,
    top: NodeView,
    held: Map<Digest, NodeView>,
    root: NodeView,
    key: Seq<u8>,
    value: Seq<u8>,
    q: Seq<u8>,
)
    requires
        store_wf(full),
        store_wf(held),
        part_of(held, full),
        same_content(root, top),
        root.wf(),
        key_fits(key),
        put_result(full, top, nibbles_of(key), value) is Ok,
        writes_cleanly(full, top, nibbles_of(key), value),
        is_path(q),
        q == nibbles_of(key) || lookup(held, root, q) is Ok,
    ensures
        ({
            let replayed = checked_write(held, root, path_nodes(full, top, key), key, value);
            &&& replayed is Ok
            &&& lookup(replayed->Ok_0.0, replayed->Ok_0.1, q) == (if q == nibbles_of(key) {
                Ok::<Option<Seq<u8>>, Error>(Some(value))
            } else {
                lookup(held, root, q)
            })
        }),
{
    let path = nibbles_of(key);
    let entry = path_nodes(full, top, key);
    let boundary = stray_boundary(held, root, path);
    let t = walk(full, top, path);
    lemma_nibbles_are_path(key);
    lemma_boundary(held, root, path);
    lemma_walk(full, top, path);
    lemma_walk_nodes(full, top, path);
    lemma_walk(held, root, path);
    assert(entry.skip(0) =~= entry);
    lemma_honest_rest(full, top, held, root, boundary, key, 0);
    law_valid_entry_keeps_hash(held, root, entry, key, value);
    let loaded = load(held, root, boundary, entry)->Ok_0;
    let w = walk(loaded.0, loaded.1, path);
    lemma_walk(loaded.0, loaded.1, path);
    lemma_walk_part(loaded.0, full, loaded.1, top, path);
    let d = t.len() - 1;
    lemma_same_content(w[d], t[d]);
    assert forall|j: int| 0 <= j < path.len() implies same_content(
        #[trigger] base_at(w, j),
        base_at(t, j),
    ) by {
        if j < t.len() {
            lemma_same_content(w[j], t[j]);
        }
    }
    let a = if d == path.len() {
        w.last().with_value(value)
    } else {
        NodeView::Leaf { value, parent: null_hash() }
    };
    let b = if d == path.len() {
        t.last().with_value(value)
    } else {
        NodeView::Leaf { value, parent: null_hash() }
    };
    assert(same_content(a, b));
    lemma_climb_alike(loaded.0, full, w, t, path, path.len() as int, a, b);
    assert(put_result(loaded.0, loaded.1, path, value) is Ok);
    assert(writes_cleanly(loaded.0, loaded.1, path, value));
    if q == path {
        law_get_after_put_returns_the_value(loaded.0, loaded.1, path, value);
    } else {
        lemma_same_content(loaded.1, top);
        lemma_same_content(root, top);
        lemma_lookup_after_load(held, root, loaded.0, loaded.1, q);
        law_put_keeps_other_values(loaded.0, loaded.1, path, value, q);
    }
}

/// A key that a list holds after `key` was added is `key` or was held before.
pub proof fn lemma_pushed_key(written: Seq<Seq<u8>>, key: Seq<u8>, k: Seq<u8>)
    ensures
        written.push(key).contains(k) <==> k == key || written.contains(k),
{
    let more = written.push(key);
    if more.contains(k) {
        let i = choose|i: int| 0 <= i < more.len() && more[i] == k;
        if i < written.len() {
            assert(written[i] == k);
        }
    }
    if written.contains(k) {
        let i = choose|i: int| 0 <= i < written.len() && written[i] == k;
        assert(more[i] == k);
    }
    if k == key {
        assert(more[written.len() as int] == k);
    }
}

/// A replay session whose skeleton is a part of the trie, with the entries
/// that the trie's run of the log gives, follows that run: it accepts the
/// log, reaches the root of the run, and answers the gets of the log as the
/// capture session does.
pub proof fn lemma_replay_follows(
    full: Map<Digest, NodeView>,
    top: NodeView,
    v: ReplayState,
    s: CaptureState,
    ops: Seq<Op>,
)
    requires
        store_wf(full),
        top.wf(),
        store_wf(v.store),
        v.root.wf(),
        part_of(v.store, full),
        same_content(v.root, top),
        run_log(full, top, ops) is Ok,
        v.pending == run_log(full, top, ops)->Ok_0.2,
        log_clean(full, top, ops),
        gets_known(v.reads, v.written, ops),
        answers_like(v, s),
    ensures
        replay(v, ops) is Ok,
        same_content(replay(v, ops)->Ok_0.root, run_log(full, top, ops)->Ok_0.1),
        replay_answers(v, ops) == capture_answers(s, ops),
    decreases ops.len(),
{
    if ops.len() > 0 {
        let rest = ops.skip(1);
        match ops[0] {
            Op::Get { key } => {
                assert(known_key(v, key));
                assert(replay_get(v, key) == capture_get(s, key).1);
                assert(replay_step(v, ops[0]) == Ok::<ReplayState, Error>(v));
                let after = capture_get(s, key).0;
                assert(answers_like(v, after)) by {
                    assert forall|k: Seq<u8>| #[trigger] known_key(v, k) implies key_fits(k)
                        && resolve(v.store, v.root, k) is Ok && resolve(v.store, v.root, k)
                        == capture_get(after, k).1 by {
                        assert(capture_get(after, k).1 == capture_get(s, k).1);
                    }
                }
                lemma_replay_follows(full, top, v, after, rest);
            },
            Op::Put { key, value } => {
                let path = nibbles_of(key);
                let applied = put_result(full, top, path, value)->Ok_0;
                let later = run_log(applied.0, applied.1, rest)->Ok_0;
                let entry = path_nodes(full, top, key);
                assert(v.pending =~= seq![entry] + later.2);
                assert(v.pending[0] == entry);
                assert(v.pending.skip(1) =~= later.2);
                lemma_nibbles_are_path(key);
                law_honest_write_is_accepted(full, top, v.store, v.root, key, value);
                lemma_put_wf(full, top, path, value);
                let next = replay_put(v, key, value)->Ok_0;
                let after = capture_put(s, key, value);
                assert(replay_step(v, ops[0]) == Ok::<ReplayState, Error>(next));
                assert(after.write_list.last() == (key, value));
                assert(after.write_list.drop_last() =~= s.write_list);
                assert(answers_like(next, after)) by {
                    assert forall|k: Seq<u8>| #[trigger] known_key(next, k) implies key_fits(k)
                        && resolve(next.store, next.root, k) is Ok && resolve(
                        next.store,
                        next.root,
                        k,
                    ) == capture_get(after, k).1 by {
                        lemma_pushed_key(v.written, key, k);
                        lemma_nibbles_are_path(k);
                        if k == key {
                            lemma_honest_write_answers(
                                full,
                                top,
                                v.store,
                                v.root,
                                key,
                                value,
                                nibbles_of(k),
                            );
                        } else {
                            assert(known_key(v, k));
                            if nibbles_of(k) == path {
                                law_distinct_keys_have_distinct_paths(k, key);
                            }
                            lemma_honest_write_answers(
                                full,
                                top,
                                v.store,
                                v.root,
                                key,
                                value,
                                nibbles_of(k),
                            );
                            assert(capture_get(after, k).1 == capture_get(s, k).1);
                        }
                    }
                }
                lemma_replay_follows(applied.0, applied.1, next, after, rest);
            },
        }
    }
}

/// The keys of a list of pairs.
pub open spec fn keys_of(pairs: Seq<(Seq<u8>, Seq<u8>)>) -> Seq<Seq<u8>> {
    pairs.map_values(|p: (Seq<u8>, Seq<u8>)| p.0)
}

/// The capture session after a log of operations, or the first storage miss.
pub open spec fn capture_log(s: CaptureState, ops: Seq<Op>) -> Result<CaptureState, Error>
    decreases ops.len(),
{
    if ops.len() == 0 {
        Ok(s)
    } else {
        match ops[0] {
            Op::Get { key } => match capture_get(s, key).1 {
                Ok(v) => capture_log(capture_get(s, key).0, ops.skip(1)),
                Err(e) => Err(e),
            },
            Op::Put { key, value } => capture_log(capture_put(s, key, value), ops.skip(1)),
        }
    }
}

/// The write list answers a key exactly when it holds the key.
pub proof fn lemma_latest_is_written(writes: Seq<(Seq<u8>, Seq<u8>)>, key: Seq<u8>)
    ensures
        latest_write(writes, key) is Some <==> keys_of(writes).contains(key),
    decreases writes.len(),
{
    let keys = keys_of(writes);
    if writes.len() > 0 {
        let n = writes.len() - 1;
        lemma_latest_is_written(writes.drop_last(), key);
        let fewer = keys_of(writes.drop_last());
        assert(keys[n] == writes.last().0);
        if keys.contains(key) {
            let i = choose|i: int| 0 <= i < keys.len() && keys[i] == key;
            if i < n {
                assert(fewer[i] == key);
            }
        }
        if fewer.contains(key) {
            let i = choose|i: int| 0 <= i < fewer.len() && fewer[i] == key;
            assert(keys[i] == key);
        }
    }
}

/// What a capture session holds after a log: the trie it had, the writes of
/// the log after its own, and in its read-set what it had and keys that the
/// trie resolves. Every get of the log reads a key that the read-set then
/// holds or that was written before the get.
pub proof fn lemma_capture_log(s: CaptureState, ops: Seq<Op>)
    requires
        capture_log(s, ops) is Ok,
    ensures
        ({
            let last = capture_log(s, ops)->Ok_0;
            &&& last.store == s.store
            &&& last.root == s.root
            &&& last.write_list == s.write_list + puts_of(ops)
            &&& forall|k: Seq<u8>| #[trigger]
                recorded(s.read_set, k) ==> recorded(last.read_set, k)
            &&& forall|k: Seq<u8>| #[trigger]
                recorded(last.read_set, k) ==> recorded(s.read_set, k) || resolve(
                    s.store,
                    s.root,
                    k,
                ) is Ok
            &&& gets_known(last.read_set, keys_of(s.write_list), ops)
        }),
    decreases ops.len(),
{
    let last = capture_log(s, ops)->Ok_0;
    if ops.len() == 0 {
        assert(s.write_list + puts_of(ops) =~= s.write_list);
    } else {
        let rest = ops.skip(1);
        match ops[0] {
            Op::Get { key } => {
                let next = capture_get(s, key).0;
                lemma_capture_log(next, rest);
                lemma_latest_is_written(s.write_list, key);
                assert forall|k: Seq<u8>| #[trigger]
                    recorded(s.read_set, k) implies recorded(last.read_set, k) by {
                    let i = choose|i: int|
                        0 <= i < s.read_set.len() && (#[trigger] s.read_set[i]).0 == k;
                    assert(next.read_set[i].0 == k);
                    assert(recorded(next.read_set, k));
                }
                assert forall|k: Seq<u8>| #[trigger]
                    recorded(last.read_set, k) implies recorded(s.read_set, k) || resolve(
                    s.store,
                    s.root,
                    k,
                ) is Ok by {
                    if recorded(next.read_set, k) && !recorded(s.read_set, k) {
                        let i = choose|i: int|
                            0 <= i < next.read_set.len() && (#[trigger] next.read_set[i]).0 == k;
                        if i < s.read_set.len() {
                            assert(s.read_set[i].0 == k);
                        }
                    }
                }
                if latest_write(s.write_list, key) is None {
                    if !recorded(s.read_set, key) {
                        assert(next.read_set[s.read_set.len() as int].0 == key);
                    }
                    assert(recorded(next.read_set, key));
                }
            },
            Op::Put { key, value } => {
                let next = capture_put(s, key, value);
                lemma_capture_log(next, rest);
                assert(next.write_list + puts_of(rest) =~= s.write_list + puts_of(ops));
                assert(keys_of(next.write_list) =~= keys_of(s.write_list).push(key));
            },
        }
    }
}

/// Whether a list of (key, hash) pairs names `h`.
pub open spec fn names(list: Seq<(Seq<u8>, Digest)>, h: Digest) -> bool {
    exists|i: int| 0 <= i < list.len() && (#[trigger] list[i]).1 == h
}

/// The store holds every node that the path hashes of the read keys name,
/// and those hashes name every node below the root on the path of a read key.
pub proof fn lemma_pre_hashes(
    store: Map<Digest, NodeView>,
    root: NodeView,
    reads: Seq<(Seq<u8>, Seq<u8>)>,
)
    requires
        store_wf(store),
    ensures
        forall|i: int|
            0 <= i < pre_hashes(store, root, reads).len() ==> (#[trigger] pre_hashes(
                store,
                root,
                reads,
            )[i]).1 != null_hash() && store.contains_key(pre_hashes(store, root, reads)[i].1),
        forall|i: int, j: int|
            0 <= i < reads.len() && 1 <= j < walk(store, root, nibbles_of(reads[i].0)).len()
                ==> names(
                pre_hashes(store, root, reads),
                #[trigger] walk(store, root, nibbles_of(reads[i].0))[j].hash(),
            ),
    decreases reads.len(),
{
    let list = pre_hashes(store, root, reads);
    if reads.len() > 0 {
        let n = reads.len() - 1;
        let fewer = reads.drop_last();
        let head = pre_hashes(store, root, fewer);
        let key = reads.last().0;
        let tail = path_hashes(store, root, key);
        let t = walk(store, root, nibbles_of(key));
        lemma_pre_hashes(store, root, fewer);
        lemma_walk(store, root, nibbles_of(key));
        assert(list =~= head + tail);
        assert forall|i: int| 0 <= i < list.len() implies (#[trigger] list[i]).1 != null_hash()
            && store.contains_key(list[i].1) by {
            if i < head.len() {
                assert(list[i] == head[i]);
            } else {
                let j = i - head.len();
                assert(list[i] == tail[j]);
                assert(tail[j].1 == t[j + 1].hash());
                assert(steps_down(store, t[j], nibbles_of(key)[j]));
                assert(t[j + 1] == store[t[j].slot(nibbles_of(key)[j] as int)]);
            }
        }
        assert forall|i: int, j: int|
            0 <= i < reads.len() && 1 <= j < walk(
                store,
                root,
                nibbles_of(reads[i].0),
            ).len() implies names(
            list,
            #[trigger] walk(store, root, nibbles_of(reads[i].0))[j].hash(),
        ) by {
            if i < n {
                assert(fewer[i] == reads[i]);
                let h = walk(store, root, nibbles_of(fewer[i].0))[j].hash();
                assert(names(head, h));
                let x = choose|x: int| 0 <= x < head.len() && (#[trigger] head[x]).1 == h;
                assert(list[x].1 == h);
            } else {
                assert(list[head.len() + j - 1] == tail[j - 1]);
                assert(tail[j - 1].1 == t[j].hash());
            }
        }
    }
}

/// Gathering from a source that holds every named node succeeds, and the
/// store that results holds every named node and is a part of the source.
pub proof fn lemma_gather_all(
    source: Map<Digest, NodeView>,
    held: Map<Digest, NodeView>,
    list: Seq<(Seq<u8>, Digest)>,
)
    requires
        store_wf(source),
        store_wf(held),
        within(held, source),
        forall|i: int|
            0 <= i < list.len() ==> (#[trigger] list[i]).1 != null_hash() && source.contains_key(
                list[i].1,
            ),
    ensures
        gather(source, held, list) is Ok,
        store_wf(gather(source, held, list)->Ok_0),
        within(gather(source, held, list)->Ok_0, source),
        within(held, gather(source, held, list)->Ok_0),
        forall|h: Digest| names(list, h) ==> gather(source, held, list)->Ok_0.contains_key(h),
    decreases list.len(),
{
    if list.len() > 0 {
        let h = list[0].1;
        let next = store_put(held, h, source[h]);
        let rest = list.skip(1);
        assert(store_wf(next)) by {
            assert forall|k: Digest| #[trigger] next.contains_key(k) implies k != null_hash()
                && next[k].hash() == k && !(next[k] is Proof) && next[k].wf() by {
                if !held.contains_key(k) {
                    assert(k == h);
                }
            }
        }
        assert(within(next, source)) by {
            assert forall|k: Digest| #[trigger] next.contains_key(k) implies source.contains_key(
                k,
            ) && source[k] == next[k] by {
                if !held.contains_key(k) {
                    assert(k == h);
                }
            }
        }
        assert forall|i: int| 0 <= i < rest.len() implies (#[trigger] rest[i]).1 != null_hash()
            && source.contains_key(rest[i].1) by {
            assert(rest[i] == list[i + 1]);
        }
        lemma_gather_all(source, next, rest);
        let last = gather(source, held, list)->Ok_0;
        assert forall|k: Digest| #[trigger] held.contains_key(k) implies last.contains_key(k)
            && last[k] == held[k] by {
            assert(next.contains_key(k));
        }
        assert forall|k: Digest| names(list, k) implies last.contains_key(k) by {
            let x = choose|x: int| 0 <= x < list.len() && (#[trigger] list[x]).1 == k;
            if x == 0 {
                assert(next.contains_key(k));
            } else {
                assert(rest[x - 1].1 == k);
                assert(names(rest, k));
            }
        }
    }
}

/// A part of a trie that holds every node below the root on a path walks
/// that path as the trie does.
pub proof fn lemma_walk_held(
    held: Map<Digest, NodeView>,
    full: Map<Digest, NodeView>,
    node: NodeView,
    path: Seq<u8>,
)
    requires
        store_wf(full),
        within(held, full),
        forall|j: int|
            1 <= j < walk(full, node, path).len() ==> held.contains_key(
                #[trigger] walk(full, node, path)[j].hash(),
            ),
    ensures
        walk(held, node, path) == walk(full, node, path),
    decreases path.len(),
{
    let t = walk(full, node, path);
    if path.len() > 0 && steps_down(full, node, path[0]) {
        let h = node.slot(path[0] as int);
        let below = walk(full, full[h], path.skip(1));
        lemma_walk(full, full[h], path.skip(1));
        assert(t =~= seq![node] + below);
        assert(t[1] == full[h]);
        assert(held.contains_key(t[1].hash()));
        assert(held[h] == full[h]);
        assert forall|j: int| 1 <= j < below.len() implies held.contains_key(
            #[trigger] below[j].hash(),
        ) by {
            assert(t[j + 1] == below[j]);
        }
        lemma_walk_held(held, full, full[h], path.skip(1));
    } else {
        if path.len() > 0 && steps_down(held, node, path[0]) {
            assert(full.contains_key(node.slot(path[0] as int)));
        }
    }
}

/// The store that is gathered for the path hashes of a read-set is a part of
/// the trie, and its skeleton answers every key of the read-set that the
/// trie answers.
pub proof fn lemma_seeded_store(
    store: Map<Digest, NodeView>,
    root: NodeView,
    reads: Seq<(Seq<u8>, Seq<u8>)>,
)
    requires
        store_wf(store),
    ensures
        ({
            let held = gather(
                store,
                Map::<Digest, NodeView>::empty(),
                pre_hashes(store, root, reads),
            );
            &&& held is Ok
            &&& store_wf(held->Ok_0)
            &&& within(held->Ok_0, store)
            &&& forall|k: Seq<u8>| #[trigger]
                recorded(reads, k) ==> lookup(held->Ok_0, root, nibbles_of(k)) == lookup(
                    store,
                    root,
                    nibbles_of(k),
                )
        }),
{
    let none = Map::<Digest, NodeView>::empty();
    let hashes = pre_hashes(store, root, reads);
    lemma_pre_hashes(store, root, reads);
    lemma_gather_all(store, none, hashes);
    let held = gather(store, none, hashes)->Ok_0;
    assert forall|k: Seq<u8>| #[trigger] recorded(reads, k) implies lookup(
        held,
        root,
        nibbles_of(k),
    ) == lookup(store, root, nibbles_of(k)) by {
        let i = choose|i: int| 0 <= i < reads.len() && (#[trigger] reads[i]).0 == k;
        let t = walk(store, root, nibbles_of(k));
        assert forall|j: int| 1 <= j < t.len() implies held.contains_key(
            #[trigger] t[j].hash(),
        ) by {
            assert(names(hashes, walk(store, root, nibbles_of(reads[i].0))[j].hash()));
        }
        lemma_walk_held(held, store, root, nibbles_of(k));
    }
}

/// The bundle of a log, with nothing taken out, is accepted: the session
/// that is seeded with it replays the log and reaches the root of the trie's
/// run of the log.
pub proof fn lemma_whole_bundle_replays(
    store: Map<Digest, NodeView>,
    root: NodeView,
    reads: Seq<(Seq<u8>, Seq<u8>)>,
    ops: Seq<Op>,
)
    requires
        store_wf(store),
        root.wf(),
        log_clean(store, root, ops),
        run_log(store, root, ops) is Ok,
        gets_known(reads, Seq::<Seq<u8>>::empty(), ops),
        forall|k: Seq<u8>| #[trigger]
            recorded(reads, k) ==> key_fits(k) && resolve(store, root, k) is Ok,
    ensures
        ({
            let whole = BundleView {
                reads,
                hashes: pre_hashes(store, root, reads),
                post_state: run_log(store, root, ops)->Ok_0.2,
            };
            let seeded = session_of(store, Map::<Digest, NodeView>::empty(), root, whole);
            &&& seeded is Ok
            &&& replay(seeded->Ok_0, ops) is Ok
            &&& replay(seeded->Ok_0, ops)->Ok_0.root.hash() == run_log(
                store,
                root,
                ops,
            )->Ok_0.1.hash()
            &&& replay_answers(seeded->Ok_0, ops) == capture_answers(start_of(store, root), ops)
        }),
{
    let none = Map::<Digest, NodeView>::empty();
    let whole = BundleView {
        reads,
        hashes: pre_hashes(store, root, reads),
        post_state: run_log(store, root, ops)->Ok_0.2,
    };
    lemma_seeded_store(store, root, reads);
    let v = session_of(store, none, root, whole)->Ok_0;
    let first = start_of(store, root);
    assert(part_of(v.store, store));
    assert(answers_like(v, first)) by {
        assert forall|k: Seq<u8>| #[trigger] known_key(v, k) implies key_fits(k) && resolve(
            v.store,
            v.root,
            k,
        ) is Ok && resolve(v.store, v.root, k) == capture_get(first, k).1 by {
            assert(recorded(reads, k));
        }
    }
    lemma_replay_follows(store, root, v, first, ops);
    lemma_same_content(replay(v, ops)->Ok_0.root, run_log(store, root, ops)->Ok_0.1);
}

/// What a capture session that started with nothing read or written holds
/// after a log whose keys fit: every get of the log reads a key that its
/// read-set holds or that the log wrote before the get, and every key of the
/// read-set fits and is answered by the trie.
pub proof fn lemma_capture_from_start(store: Map<Digest, NodeView>, root: NodeView, ops: Seq<Op>)
    requires
        capture_log(start_of(store, root), ops) is Ok,
        log_keys_fit(ops),
    ensures
        ({
            let s = capture_log(start_of(store, root), ops)->Ok_0;
            &&& s.store == store
            &&& s.root == root
            &&& s.write_list == puts_of(ops)
            &&& gets_known(s.read_set, Seq::<Seq<u8>>::empty(), ops)
            &&& forall|k: Seq<u8>| #[trigger]
                recorded(s.read_set, k) ==> key_fits(k) && resolve(store, root, k) is Ok
        }),
{
    let first = start_of(store, root);
    let s = capture_log(first, ops)->Ok_0;
    lemma_capture_log(first, ops);
    assert(first.write_list + puts_of(ops) =~= puts_of(ops));
    assert(keys_of(first.write_list) =~= Seq::<Seq<u8>>::empty());
    assert forall|k: Seq<u8>| #[trigger] recorded(s.read_set, k) implies key_fits(k) && resolve(
        store,
        root,
        k,
    ) is Ok by {
        lemma_read_keys_fit(first, ops, k);
    }
}

/// The bundle of a log, minimized against nothing, is accepted like the
/// bundle with nothing taken out.
pub proof fn lemma_small_bundle_replays(
    store: Map<Digest, NodeView>,
    root: NodeView,
    reads: Seq<(Seq<u8>, Seq<u8>)>,
    ops: Seq<Op>,
)
    requires
        store_wf(store),
        root.wf(),
        log_clean(store, root, ops),
        run_log(store, root, ops) is Ok,
        gets_known(reads, Seq::<Seq<u8>>::empty(), ops),
        forall|k: Seq<u8>| #[trigger]
            recorded(reads, k) ==> key_fits(k) && resolve(store, root, k) is Ok,
    ensures
        ({
            let small = bundle_of_log(store, root, reads, ops);
            let seeded = session_of(store, Map::<Digest, NodeView>::empty(), root, small);
            &&& seeded is Ok
            &&& replay(seeded->Ok_0, ops) is Ok
            &&& replay(seeded->Ok_0, ops)->Ok_0.root.hash() == run_log(
                store,
                root,
                ops,
            )->Ok_0.1.hash()
            &&& replay_answers(seeded->Ok_0, ops) == capture_answers(start_of(store, root), ops)
        }),
{
    let whole = BundleView {
        reads,
        hashes: pre_hashes(store, root, reads),
        post_state: run_log(store, root, ops)->Ok_0.2,
    };
    lemma_whole_bundle_replays(store, root, reads, ops);
    law_minimized_bundle_replays_alike(
        store,
        Map::<Digest, NodeView>::empty(),
        root,
        whole,
        Set::<Digest>::empty(),
        ops,
    );
}

/// The minimized bundle of a read-set and a log that runs.
pub open spec fn bundle_of_log(
    store: Map<Digest, NodeView>,
    root: NodeView,
    reads: Seq<(Seq<u8>, Seq<u8>)>,
    ops: Seq<Op>,
) -> BundleView {
    minimized(
        BundleView {
            reads,
            hashes: pre_hashes(store, root, reads),
            post_state: run_log(store, root, ops)->Ok_0.2,
        },
        Set::<Digest>::empty(),
    )
}

/// What a session derives after a log is the minimized bundle of its
/// read-set and the log, and the hash of the root of the trie's run.
pub proof fn lemma_derived_is_bundle_of_log(s: CaptureState, ops: Seq<Op>)
    requires
        s.write_list == puts_of(ops),
        derived_bundle(s) is Ok,
    ensures
        run_log(s.store, s.root, ops) is Ok,
        derived_bundle(s)->Ok_0.0 == bundle_of_log(s.store, s.root, s.read_set, ops),
        derived_bundle(s)->Ok_0.1 == run_log(s.store, s.root, ops)->Ok_0.1.hash(),
{
    lemma_run_log(s.store, s.root, ops);
}

/// The bundle that a capture session derives is accepted: a replay session
/// that is seeded with the bundle, and whose store holds only the nodes that
/// the bundle's pre-state names, replays the log that the capture session
/// ran without an error, answers every get of the log as the capture session
/// did, consumes every entry of the bundle, and reaches a root with the hash
/// that the capture session derived. No write of the log may meet a hash
/// collision.
pub proof fn law_derived_bundle_replays(
    store: Map<Digest, NodeView>,
    root: NodeView,
    ops: Seq<Op>,
)
    requires
        store_wf(store),
        root.wf(),
        log_clean(store, root, ops),
        capture_log(start_of(store, root), ops) is Ok,
        derived_bundle(capture_log(start_of(store, root), ops)->Ok_0) is Ok,
    ensures
        ({
            let derived = derived_bundle(capture_log(start_of(store, root), ops)->Ok_0)->Ok_0;
            let seeded = session_of(store, Map::<Digest, NodeView>::empty(), root, derived.0);
            &&& seeded is Ok
            &&& replay(seeded->Ok_0, ops) is Ok
            &&& replay(seeded->Ok_0, ops)->Ok_0.root.hash() == derived.1
            &&& replay(seeded->Ok_0, ops)->Ok_0.pending.len() == 0
            &&& replay_answers(seeded->Ok_0, ops) == capture_answers(start_of(store, root), ops)
        }),
{
    let s = capture_log(start_of(store, root), ops)->Ok_0;
    lemma_capture_start(store, root, ops);
    lemma_derived_is_bundle_of_log(s, ops);
    lemma_log_keys_fit(store, root, ops);
    lemma_capture_from_start(store, root, ops);
    lemma_small_bundle_replays(store, root, s.read_set, ops);
    let small = bundle_of_log(store, root, s.read_set, ops);
    let seeded = session_of(store, Map::<Digest, NodeView>::empty(), root, small)->Ok_0;
    lemma_run_entries(store, root, ops);
    lemma_minimized_len(run_log(store, root, ops)->Ok_0.2, Set::<Digest>::empty());
    lemma_replay_consumes(seeded, ops);
}

/// The run of a log gives one entry for each of its writes.
pub proof fn lemma_run_entries(store: Map<Digest, NodeView>, root: NodeView, ops: Seq<Op>)
    requires
        run_log(store, root, ops) is Ok,
    ensures
        run_log(store, root, ops)->Ok_0.2.len() == puts_of(ops).len(),
    decreases ops.len(),
{
    if ops.len() > 0 {
        match ops[0] {
            Op::Get { key } => {
                lemma_run_entries(store, root, ops.skip(1));
            },
            Op::Put { key, value } => {
                let applied = put_result(store, root, nibbles_of(key), value)->Ok_0;
                lemma_run_entries(applied.0, applied.1, ops.skip(1));
            },
        }
    }
}

/// A minimized post-state has as many entries as the post-state.
pub proof fn lemma_minimized_len(entries: Seq<Seq<(Seq<u8>, NodeView)>>, trusted: Set<Digest>)
    ensures
        minimize_entries(entries, trusted).len() == entries.len(),
    decreases entries.len(),
{
    if entries.len() > 0 {
        lemma_minimized_len(entries.skip(1), trusted_after(entries[0], trusted));
    }
}

/// A replay consumes one pending entry for each write of its log.
pub proof fn lemma_replay_consumes(v: ReplayState, ops: Seq<Op>)
    requires
        replay(v, ops) is Ok,
    ensures
        replay(v, ops)->Ok_0.pending.len() + puts_of(ops).len() == v.pending.len(),
    decreases ops.len(),
{
    if ops.len() > 0 {
        match ops[0] {
            Op::Get { key } => {
                lemma_replay_consumes(v, ops.skip(1));
            },
            Op::Put { key, value } => {
                lemma_replay_consumes(replay_put(v, key, value)->Ok_0, ops.skip(1));
            },
        }
    }
}

/// A capture session that started with nothing written holds the trie it
/// started with and the writes of its log.
pub proof fn lemma_capture_start(store: Map<Digest, NodeView>, root: NodeView, ops: Seq<Op>)
    requires
        capture_log(start_of(store, root), ops) is Ok,
    ensures
        capture_log(start_of(store, root), ops)->Ok_0.store == store,
        capture_log(start_of(store, root), ops)->Ok_0.root == root,
        capture_log(start_of(store, root), ops)->Ok_0.write_list == puts_of(ops),
{
    let first = start_of(store, root);
    lemma_capture_log(first, ops);
    assert(first.write_list + puts_of(ops) =~= puts_of(ops));
}

/// Whether a capture session answers like a trie: every key that the
/// session answers, the trie answers with the same value.
pub open spec fn shadows(s: CaptureState, store: Map<Digest, NodeView>, root: NodeView) -> bool {
    forall|k: Seq<u8>|
        key_fits(k) && (#[trigger] capture_get(s, k)).1 is Ok ==> resolve(store, root, k)
            == capture_get(s, k).1
}

/// A capture session answers the gets of a log as the trie does to which the
/// writes of the log are applied as they come: the write list stands for the
/// writes that the trie has not seen yet.
pub proof fn lemma_capture_shadows(
    s: CaptureState,
    store: Map<Digest, NodeView>,
    root: NodeView,
    ops: Seq<Op>,
)
    requires
        store_wf(store),
        root.wf(),
        log_clean(store, root, ops),
        run_log(store, root, ops) is Ok,
        capture_log(s, ops) is Ok,
        shadows(s, store, root),
    ensures
        capture_answers(s, ops) == trie_answers(store, root, ops),
    decreases ops.len(),
{
    if ops.len() > 0 {
        let rest = ops.skip(1);
        match ops[0] {
            Op::Get { key } => {
                let after = capture_get(s, key).0;
                assert(shadows(after, store, root)) by {
                    assert forall|k: Seq<u8>|
                        key_fits(k) && (#[trigger] capture_get(after, k)).1 is Ok implies resolve(
                        store,
                        root,
                        k,
                    ) == capture_get(after, k).1 by {
                        assert(capture_get(after, k).1 == capture_get(s, k).1);
                    }
                }
                lemma_capture_shadows(after, store, root, rest);
            },
            Op::Put { key, value } => {
                let path = nibbles_of(key);
                let after = capture_put(s, key, value);
                let applied = put_result(store, root, path, value)->Ok_0;
                lemma_nibbles_are_path(key);
                lemma_put_wf(store, root, path, value);
                assert(after.write_list.last() == (key, value));
                assert(after.write_list.drop_last() =~= s.write_list);
                assert(shadows(after, applied.0, applied.1)) by {
                    assert forall|k: Seq<u8>|
                        key_fits(k) && (#[trigger] capture_get(after, k)).1 is Ok implies resolve(
                        applied.0,
                        applied.1,
                        k,
                    ) == capture_get(after, k).1 by {
                        lemma_nibbles_are_path(k);
                        if k == key {
                            law_get_after_put_returns_the_value(store, root, path, value);
                        } else {
                            if nibbles_of(k) == path {
                                law_distinct_keys_have_distinct_paths(k, key);
                            }
                            assert(capture_get(after, k).1 == capture_get(s, k).1);
                            law_put_keeps_other_values(store, root, path, value, nibbles_of(k));
                        }
                    }
                }
                lemma_capture_shadows(after, applied.0, applied.1, rest);
            },
        }
    }
}

/// A capture session is a drop-in trie: it answers the gets of a log as the
/// trie does to which the writes of the log are applied as they come. No
/// write of the log may meet a hash collision.
pub proof fn law_capture_answers_like_the_trie(
    store: Map<Digest, NodeView>,
    root: NodeView,
    ops: Seq<Op>,
)
    requires
        store_wf(store),
        root.wf(),
        log_clean(store, root, ops),
        run_log(store, root, ops) is Ok,
        capture_log(start_of(store, root), ops) is Ok,
    ensures
        capture_answers(start_of(store, root), ops) == trie_answers(store, root, ops),
{
    let s = start_of(store, root);
    assert(shadows(s, store, root));
    lemma_capture_shadows(s, store, root, ops);
}

/// Whether every key of a log fits this machine.
pub open spec fn log_keys_fit(ops: Seq<Op>) -> bool
    decreases ops.len(),
{
    ops.len() == 0 || match ops[0] {
        Op::Get { key } => key_fits(key) && log_keys_fit(ops.skip(1)),
        Op::Put { key, value } => key_fits(key) && log_keys_fit(ops.skip(1)),
    }
}

/// The keys of a clean log that runs fit this machine.
pub proof fn lemma_log_keys_fit(store: Map<Digest, NodeView>, root: NodeView, ops: Seq<Op>)
    requires
        log_clean(store, root, ops),
        run_log(store, root, ops) is Ok,
    ensures
        log_keys_fit(ops),
    decreases ops.len(),
{
    if ops.len() > 0 {
        match ops[0] {
            Op::Get { key } => {
                lemma_log_keys_fit(store, root, ops.skip(1));
            },
            Op::Put { key, value } => {
                let applied = put_result(store, root, nibbles_of(key), value)->Ok_0;
                lemma_log_keys_fit(applied.0, applied.1, ops.skip(1));
            },
        }
    }
}

/// A key that a capture session records during a log is a key of the log.
pub proof fn lemma_read_keys_fit(s: CaptureState, ops: Seq<Op>, k: Seq<u8>)
    requires
        capture_log(s, ops) is Ok,
        recorded(capture_log(s, ops)->Ok_0.read_set, k),
        log_keys_fit(ops),
        recorded(s.read_set, k) ==> key_fits(k),
    ensures
        key_fits(k),
    decreases ops.len(),
{
    if ops.len() > 0 {
        match ops[0] {
            Op::Get { key } => {
                let next = capture_get(s, key).0;
                if recorded(next.read_set, k) && !recorded(s.read_set, k) {
                    let i = choose|i: int|
                        0 <= i < next.read_set.len() && (#[trigger] next.read_set[i]).0 == k;
                    if i < s.read_set.len() {
                        assert(s.read_set[i].0 == k);
                    }
                    assert(k == key);
                }
                lemma_read_keys_fit(next, ops.skip(1), k);
            },
            Op::Put { key, value } => {
                lemma_read_keys_fit(capture_put(s, key, value), ops.skip(1), k);
            },
        }
    }
}

} // verus!
