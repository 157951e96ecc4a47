//! What holds of every capture and every replay, stated over the models of
//! the sessions and proved from their definitions.

use vstd::prelude::*;
use crate::bundle::{
    droppable, gather, minimize_entries, minimize_entry, minimize_hashes, retain, trusted_after,
    BundleView,
};
use crate::capture::{
    capture_get, capture_put, distinct_keys, latest_write, recorded, resolve, CaptureState,
};
use crate::db::{store_put, store_wf};
use crate::descent::{
    boundary_depth, expected, install_result, lemma_boundary, lemma_install_expected,
    lemma_install_grows, lemma_install_keeps_hash, lemma_put_grows, lemma_walk, lemma_walk_prefix,
    node_at, on_walk, stray_boundary, stray_root, walk, within,
};
use crate::digest::Digest;
use crate::error::Error;
use crate::nibbles::{extends, key_fits, lemma_nibbles_are_path, nibbles_of};
use crate::node::NodeView;
use crate::replay::{
    all_extend, checked_write, hash_kept, load, load_node, replay, replay_answers, replay_get,
    replay_put, replay_step, session_of, Op, ReplayState,
};

verus! {

/// The session after a run of puts, in order.
pub open spec fn after_puts(s: CaptureState, writes: Seq<(Seq<u8>, Seq<u8>)>) -> CaptureState
    decreases writes.len(),
{
    if writes.len() == 0 {
        s
    } else {
        capture_put(after_puts(s, writes.drop_last()), writes.last().0, writes.last().1)
    }
}

/// The session after a run of gets, in order.
pub open spec fn after_gets(s: CaptureState, keys: Seq<Seq<u8>>) -> CaptureState
    decreases keys.len(),
{
    if keys.len() == 0 {
        s
    } else {
        capture_get(after_gets(s, keys.drop_last()), keys.last()).0
    }
}

/// A run of puts appends its writes to the write list and changes nothing else.
pub proof fn lemma_after_puts(s: CaptureState, writes: Seq<(Seq<u8>, Seq<u8>)>)
    ensures
        after_puts(s, writes) == (CaptureState { write_list: s.write_list + writes, ..s }),
    decreases writes.len(),
{
    if writes.len() == 0 {
        assert(s.write_list + writes =~= s.write_list);
    } else {
        lemma_after_puts(s, writes.drop_last());
        assert((s.write_list + writes.drop_last()).push(writes.last()) =~= s.write_list + writes);
    }
}

/// A run of gets changes neither the write list nor the trie.
pub proof fn lemma_after_gets(s: CaptureState, keys: Seq<Seq<u8>>)
    ensures
        after_gets(s, keys).write_list == s.write_list,
        after_gets(s, keys).store == s.store,
        after_gets(s, keys).root == s.root,
    decreases keys.len(),
{
    if keys.len() > 0 {
        lemma_after_gets(s, keys.drop_last());
    }
}

/// After writes to distinct keys, the latest write to each of those keys is
/// the one in the run, whatever was written before it.
pub proof fn lemma_latest_of_distinct(
    base: Seq<(Seq<u8>, Seq<u8>)>,
    writes: Seq<(Seq<u8>, Seq<u8>)>,
    i: int,
)
    requires
        distinct_keys(writes),
        0 <= i < writes.len(),
    ensures
        latest_write(base + writes, writes[i].0) == Some(writes[i].1),
    decreases writes.len(),
{
    let all = base + writes;
    assert(all.last() == writes.last());
    if i == writes.len() - 1 {
    } else {
        assert(writes[i].0 != writes[writes.len() - 1].0);
        assert(all.drop_last() =~= base + writes.drop_last());
        assert(distinct_keys(writes.drop_last())) by {
            let fewer = writes.drop_last();
            assert forall|a: int, b: int| 0 <= a < b < fewer.len() implies (#[trigger] fewer[a]).0
                != (#[trigger] fewer[b]).0 by {
                assert(fewer[a] == writes[a]);
                assert(fewer[b] == writes[b]);
            }
        }
        assert(writes.drop_last()[i] == writes[i]);
        lemma_latest_of_distinct(base, writes.drop_last(), i);
    }
}

/// After a run of writes to distinct keys, and after any gets that follow
/// it, a get of a written key returns the value that the run wrote for it.
pub proof fn law_get_returns_written_value(
    s: CaptureState,
    writes: Seq<(Seq<u8>, Seq<u8>)>,
    reads: Seq<Seq<u8>>,
    i: int,
)
    requires
        distinct_keys(writes),
        0 <= i < writes.len(),
    ensures
        capture_get(after_gets(after_puts(s, writes), reads), writes[i].0).1 == Ok::<
            Seq<u8>,
            Error,
        >(writes[i].1),
{
    lemma_after_puts(s, writes);
    lemma_after_gets(after_puts(s, writes), reads);
    lemma_latest_of_distinct(s.write_list, writes, i);
}

/// After two puts to one key, a get of that key returns the second value, and
/// the get leaves the session as it was: the read-set records nothing for a
/// key that the write list answers.
pub proof fn law_second_write_wins(s: CaptureState, key: Seq<u8>, v1: Seq<u8>, v2: Seq<u8>)
    ensures
        ({
            let written = capture_put(capture_put(s, key, v1), key, v2);
            &&& capture_get(written, key) == (written, Ok::<Seq<u8>, Error>(v2))
            &&& written.read_set == s.read_set
        }),
{
}

/// A get that the write list answers never changes the read-set.
pub proof fn law_shadowed_read_is_not_recorded(s: CaptureState, key: Seq<u8>)
    requires
        latest_write(s.write_list, key) is Some,
    ensures
        capture_get(s, key).0 == s,
        capture_get(s, key).1 == Ok::<Seq<u8>, Error>(latest_write(s.write_list, key)->Some_0),
{
}

/// Reading twice a key that no write shadows records it exactly once: after
/// the two reads the read-set holds the key, and holds no key twice. Both
/// reads return what the trie resolves, the second read changes nothing, and
/// a key that was not recorded before is recorded with the value of the
/// first read.
pub proof fn law_first_read_is_recorded_once(s: CaptureState, key: Seq<u8>, value: Seq<u8>)
    requires
        distinct_keys(s.read_set),
        latest_write(s.write_list, key) is None,
        resolve(s.store, s.root, key) == Ok::<Seq<u8>, Error>(value),
    ensures
        ({
            let first = capture_get(s, key);
            let second = capture_get(first.0, key);
            &&& first.1 == Ok::<Seq<u8>, Error>(value)
            &&& second.1 == Ok::<Seq<u8>, Error>(value)
            &&& second.0 == first.0
            &&& recorded(second.0.read_set, key)
            &&& distinct_keys(second.0.read_set)
            &&& recorded(s.read_set, key) ==> first.0 == s
            &&& !recorded(s.read_set, key) ==> first.0.read_set == s.read_set.push((key, value))
        }),
{
    let first = capture_get(s, key);
    if !recorded(s.read_set, key) {
        let after = s.read_set.push((key, value));
        assert(first.0.read_set == after);
        assert(after[s.read_set.len() as int].0 == key);
        assert(recorded(after, key));
        assert forall|i: int, j: int| 0 <= i < j < after.len() implies (#[trigger] after[i]).0
            != (#[trigger] after[j]).0 by {
            if j < s.read_set.len() {
                assert(after[i] == s.read_set[i]);
                assert(after[j] == s.read_set[j]);
            } else {
                assert(after[i] == s.read_set[i]);
            }
        }
    }
}

/// A key that the read-set already holds stays recorded as it is: a later
/// read of it changes nothing, whatever the trie then resolves.
pub proof fn law_recorded_read_is_kept(s: CaptureState, key: Seq<u8>)
    requires
        recorded(s.read_set, key),
    ensures
        capture_get(s, key).0 == s,
{
}

/// Whether a store holds a node under every hash of a set.
pub open spec fn covers(store: Map<Digest, NodeView>, hashes: Set<Digest>) -> bool {
    forall|h: Digest| #[trigger] hashes.contains(h) ==> store.contains_key(h)
}

/// A bundle after both of its parts were minimized against `trusted`, each on
/// its own.
pub open spec fn minimized(bundle: BundleView, trusted: Set<Digest>) -> BundleView {
    BundleView {
        reads: bundle.reads,
        hashes: minimize_hashes(bundle.hashes, trusted),
        post_state: minimize_entries(bundle.post_state, trusted),
    }
}

/// Gathering only adds to the store.
pub proof fn lemma_gather_grows(
    source: Map<Digest, NodeView>,
    held: Map<Digest, NodeView>,
    list: Seq<(Seq<u8>, Digest)>,
)
    requires
        gather(source, held, list) is Ok,
    ensures
        within(held, gather(source, held, list)->Ok_0),
    decreases list.len(),
{
    if list.len() > 0 {
        let next = store_put(held, list[0].1, source[list[0].1]);
        lemma_gather_grows(source, next, list.skip(1));
        let last = gather(source, held, list)->Ok_0;
        assert forall|h: Digest| #[trigger] held.contains_key(h) implies last.contains_key(h)
            && last[h] == held[h] by {
            assert(next.contains_key(h));
        }
    }
}

/// Where a list of (key, hash) pairs can be gathered, its minimized form
/// gathers the same store, provided the store already holds what is trusted.
pub proof fn lemma_gather_minimized(
    source: Map<Digest, NodeView>,
    held: Map<Digest, NodeView>,
    list: Seq<(Seq<u8>, Digest)>,
    trusted: Set<Digest>,
)
    requires
        covers(held, trusted),
        gather(source, held, list) is Ok,
    ensures
        gather(source, held, minimize_hashes(list, trusted)) == gather(source, held, list),
    decreases list.len(),
{
    if list.len() > 0 {
        let h = list[0].1;
        let rest = list.skip(1);
        if trusted.contains(h) {
            assert(store_put(held, h, source[h]) == held);
            lemma_gather_minimized(source, held, rest, trusted);
        } else {
            let next = store_put(held, h, source[h]);
            let kept = minimize_hashes(rest, retain(trusted, h));
            let small = seq![list[0]] + kept;
            assert(small[0] == list[0]);
            assert(small.skip(1) =~= kept);
            assert(covers(next, retain(trusted, h))) by {
                assert forall|x: Digest| #[trigger]
                    retain(trusted, h).contains(x) implies next.contains_key(x) by {
                    if trusted.contains(x) {
                        assert(held.contains_key(x));
                    }
                }
            }
            lemma_gather_minimized(source, next, rest, retain(trusted, h));
        }
    }
}

/// Where an entry can be loaded, its minimized form loads to the same
/// skeleton, provided the store already holds what is trusted; and the store
/// then holds what the minimizer trusts after the entry.
pub proof fn lemma_load_minimized(
    store: Map<Digest, NodeView>,
    root: NodeView,
    boundary: Seq<u8>,
    entry: Seq<(Seq<u8>, NodeView)>,
    trusted: Set<Digest>,
)
    requires
        covers(store, trusted),
        load(store, root, boundary, entry) is Ok,
    ensures
        load(store, root, boundary, minimize_entry(entry, trusted)) == load(
            store,
            root,
            boundary,
            entry,
        ),
        covers(load(store, root, boundary, entry)->Ok_0.0, trusted_after(entry, trusted)),
        within(store, load(store, root, boundary, entry)->Ok_0.0),
    decreases entry.len(),
{
    if entry.len() > 0 {
        let key = entry[0].0;
        let node = entry[0].1;
        let rest = entry.skip(1);
        let first = load_node(store, root, boundary, key, node);
        assert(first is Ok);
        let s = first->Ok_0.0;
        let r = first->Ok_0.1;
        lemma_install_grows(store, root, nibbles_of(key), node);
        let last = load(store, root, boundary, entry)->Ok_0.0;
        if droppable(node, trusted) {
            assert(s == store && r == root);
            lemma_load_minimized(store, root, boundary, rest, trusted);
        } else {
            let next = retain(trusted, node.hash());
            let kept = minimize_entry(rest, next);
            let small = seq![entry[0]] + kept;
            assert(small[0] == entry[0]);
            assert(small.skip(1) =~= kept);
            assert(covers(s, next)) by {
                assert forall|x: Digest| #[trigger] next.contains(x) implies s.contains_key(x) by {
                    if trusted.contains(x) {
                        assert(store.contains_key(x));
                    }
                }
            }
            lemma_load_minimized(s, r, boundary, rest, next);
        }
        assert forall|h: Digest| #[trigger] store.contains_key(h) implies last.contains_key(h)
            && last[h] == store[h] by {
            assert(s.contains_key(h));
        }
    }
}

/// The keys of a minimized entry extend the boundary where the keys of the
/// entry do.
pub proof fn lemma_minimized_extends(
    boundary: Seq<u8>,
    entry: Seq<(Seq<u8>, NodeView)>,
    trusted: Set<Digest>,
)
    requires
        all_extend(boundary, entry),
    ensures
        all_extend(boundary, minimize_entry(entry, trusted)),
    decreases entry.len(),
{
    if entry.len() > 0 {
        let rest = entry.skip(1);
        assert forall|i: int| 0 <= i < rest.len() implies key_fits((#[trigger] rest[i]).0)
            && extends(boundary, nibbles_of(rest[i].0)) by {
            assert(rest[i] == entry[i + 1]);
        }
        if droppable(entry[0].1, trusted) {
            lemma_minimized_extends(boundary, rest, trusted);
        } else {
            let next = retain(trusted, entry[0].1.hash());
            lemma_minimized_extends(boundary, rest, next);
            let kept = minimize_entry(rest, next);
            let small = minimize_entry(entry, trusted);
            assert(small =~= seq![entry[0]] + kept);
            assert forall|i: int| 0 <= i < small.len() implies key_fits((#[trigger] small[i]).0)
                && extends(boundary, nibbles_of(small[i].0)) by {
                if i > 0 {
                    assert(small[i] == kept[i - 1]);
                }
            }
        }
    }
}

/// Where a log replays against a session, it replays to the same skeleton
/// against the session whose pending entries were minimized, provided the
/// store already holds what is trusted.
pub proof fn lemma_replay_minimized(s: ReplayState, trusted: Set<Digest>, ops: Seq<Op>)
    requires
        covers(s.store, trusted),
        replay(s, ops) is Ok,
    ensures
        ({
            let small = replay(
                ReplayState { pending: minimize_entries(s.pending, trusted), ..s },
                ops,
            );
            let whole = replay(s, ops)->Ok_0;
            &&& small is Ok
            &&& small->Ok_0.store == whole.store
            &&& small->Ok_0.root == whole.root
            &&& small->Ok_0.reads == whole.reads
            &&& small->Ok_0.written == whole.written
            &&& replay_answers(
                ReplayState { pending: minimize_entries(s.pending, trusted), ..s },
                ops,
            ) == replay_answers(s, ops)
        }),
    decreases ops.len(),
{
    let m = ReplayState { pending: minimize_entries(s.pending, trusted), ..s };
    if ops.len() > 0 {
        match ops[0] {
            Op::Get { key } => {
                assert(replay_get(m, key) == replay_get(s, key));
                assert(replay_step(m, ops[0]) == Ok::<ReplayState, Error>(m));
                lemma_replay_minimized(s, trusted, ops.skip(1));
            },
            Op::Put { key, value } => {
                let entry = s.pending[0];
                let rest = s.pending.skip(1);
                let after = trusted_after(entry, trusted);
                let path = nibbles_of(key);
                let boundary = stray_boundary(s.store, s.root, path);
                assert(s.pending.len() > 0);
                assert(m.pending[0] == minimize_entry(entry, trusted));
                assert(m.pending.skip(1) =~= minimize_entries(rest, after));
                lemma_minimized_extends(boundary, entry, trusted);
                lemma_load_minimized(s.store, s.root, boundary, entry, trusted);
                let loaded = load(s.store, s.root, boundary, entry)->Ok_0;
                lemma_put_grows(loaded.0, loaded.1, path, value);
                let next = replay_put(s, key, value)->Ok_0;
                assert(covers(next.store, after)) by {
                    assert forall|x: Digest| #[trigger]
                        after.contains(x) implies next.store.contains_key(x) by {
                        assert(loaded.0.contains_key(x));
                    }
                }
                assert(replay_put(m, key, value) == Ok::<ReplayState, Error>(
                    ReplayState { pending: minimize_entries(next.pending, after), ..next },
                ));
                lemma_replay_minimized(next, after, ops.skip(1));
            },
        }
    }
}

/// A bundle and its minimized form replay alike: where a log replays against
/// the session that is seeded with a bundle, the session that is seeded with
/// the minimized bundle starts from the same store, and the same log replays
/// against it to the same root and the same store, with the same answers to
/// its gets. The receiver has to hold what the minimizer was told to trust.
pub proof fn law_minimized_bundle_replays_alike(
    source: Map<Digest, NodeView>,
    held: Map<Digest, NodeView>,
    root: NodeView,
    bundle: BundleView,
    trusted: Set<Digest>,
    ops: Seq<Op>,
)
    requires
        covers(held, trusted),
        session_of(source, held, root, bundle) is Ok,
        replay(session_of(source, held, root, bundle)->Ok_0, ops) is Ok,
    ensures
        ({
            let whole = session_of(source, held, root, bundle)->Ok_0;
            let small = session_of(source, held, root, minimized(bundle, trusted));
            &&& small is Ok
            &&& small->Ok_0.store == whole.store
            &&& replay(small->Ok_0, ops) is Ok
            &&& replay(small->Ok_0, ops)->Ok_0.root == replay(whole, ops)->Ok_0.root
            &&& replay(small->Ok_0, ops)->Ok_0.store == replay(whole, ops)->Ok_0.store
            &&& replay_answers(small->Ok_0, ops) == replay_answers(whole, ops)
        }),
{
    let whole = session_of(source, held, root, bundle)->Ok_0;
    lemma_gather_minimized(source, held, bundle.hashes, trusted);
    lemma_gather_grows(source, held, bundle.hashes);
    assert(covers(whole.store, trusted)) by {
        assert forall|x: Digest| #[trigger] trusted.contains(x) implies whole.store.contains_key(
            x,
        ) by {
            assert(held.contains_key(x));
        }
    }
    lemma_replay_minimized(whole, trusted, ops);
}

/// A load of an entry whose keys extend the boundary fails in one way only:
/// a node is none of the nodes that the skeleton expects on its path.
pub proof fn lemma_load_error(
    store: Map<Digest, NodeView>,
    root: NodeView,
    boundary: Seq<u8>,
    entry: Seq<(Seq<u8>, NodeView)>,
)
    requires
        all_extend(boundary, entry),
        load(store, root, boundary, entry) is Err,
    ensures
        load(store, root, boundary, entry) == Err::<(Map<Digest, NodeView>, NodeView), Error>(
            Error::HashMismatch,
        ),
    decreases entry.len(),
{
    if entry.len() > 0 {
        assert(key_fits(entry[0].0) && extends(boundary, nibbles_of(entry[0].0)));
        match load_node(store, root, boundary, entry[0].0, entry[0].1) {
            Err(e) => {},
            Ok((s, r)) => {
                assert forall|i: int| 0 <= i < entry.skip(1).len() implies key_fits(
                    (#[trigger] entry.skip(1)[i]).0,
                ) && extends(boundary, nibbles_of(entry.skip(1)[i].0)) by {
                    assert(entry.skip(1)[i] == entry[i + 1]);
                }
                lemma_load_error(s, r, boundary, entry.skip(1));
            },
        }
    }
}

/// A write whose entry holds a node with a key that does not extend the
/// boundary of the write's stray trie is rejected as malformed, whatever the
/// hashes of the entry's nodes are.
pub proof fn law_key_outside_boundary_is_malformed(
    store: Map<Digest, NodeView>,
    root: NodeView,
    entry: Seq<(Seq<u8>, NodeView)>,
    key: Seq<u8>,
    value: Seq<u8>,
    i: int,
)
    requires
        0 <= i < entry.len(),
        !extends(stray_boundary(store, root, nibbles_of(key)), nibbles_of(entry[i].0)),
    ensures
        checked_write(store, root, entry, key, value) == Err::<
            (Map<Digest, NodeView>, NodeView),
            Error,
        >(Error::MalformedProof),
{
}

/// Whether every node of an entry is well formed and, at the time it is
/// loaded, is what the skeleton expects on the path of its key, a key that
/// extends the boundary.
pub open spec fn valid_entry(
    store: Map<Digest, NodeView>,
    root: NodeView,
    boundary: Seq<u8>,
    entry: Seq<(Seq<u8>, NodeView)>,
) -> bool
    decreases entry.len(),
{
    entry.len() == 0 || {
        &&& entry[0].1.wf()
        &&& key_fits(entry[0].0)
        &&& extends(boundary, nibbles_of(entry[0].0))
        &&& expected(store, root, nibbles_of(entry[0].0), entry[0].1)
        &&& match install_result(store, root, nibbles_of(entry[0].0), entry[0].1) {
            Ok((s, r)) => valid_entry(s, r, boundary, entry.skip(1)),
            Err(e) => false,
        }
    }
}

/// A valid entry loads, and the node at the end of a path that the descent
/// reaches keeps its hash through the load.
pub proof fn lemma_load_keeps_hash(
    store: Map<Digest, NodeView>,
    root: NodeView,
    boundary: Seq<u8>,
    entry: Seq<(Seq<u8>, NodeView)>,
    at: Seq<u8>,
)
    requires
        store_wf(store),
        root.wf(),
        valid_entry(store, root, boundary, entry),
        node_at(store, root, at) is Some,
    ensures
        load(store, root, boundary, entry) is Ok,
        hash_kept(
            load(store, root, boundary, entry)->Ok_0.0,
            load(store, root, boundary, entry)->Ok_0.1,
            at,
            node_at(store, root, at)->Some_0.hash(),
        ),
    decreases entry.len(),
{
    if entry.len() > 0 {
        let key = entry[0].0;
        let node = entry[0].1;
        lemma_nibbles_are_path(key);
        lemma_install_expected(store, root, nibbles_of(key), node);
        lemma_install_keeps_hash(store, root, nibbles_of(key), node, at);
        let after = install_result(store, root, nibbles_of(key), node)->Ok_0;
        lemma_load_keeps_hash(after.0, after.1, boundary, entry.skip(1), at);
    }
}

/// The keys of a valid entry extend the boundary.
pub proof fn lemma_valid_entry_extends(
    store: Map<Digest, NodeView>,
    root: NodeView,
    boundary: Seq<u8>,
    entry: Seq<(Seq<u8>, NodeView)>,
    i: int,
)
    requires
        valid_entry(store, root, boundary, entry),
        0 <= i < entry.len(),
    ensures
        key_fits(entry[i].0),
        extends(boundary, nibbles_of(entry[i].0)),
    decreases i,
{
    if i > 0 {
        let next = install_result(store, root, nibbles_of(entry[0].0), entry[0].1)->Ok_0;
        assert(entry.skip(1)[i - 1] == entry[i]);
        lemma_valid_entry_extends(next.0, next.1, boundary, entry.skip(1), i - 1);
    }
}

/// Loading a valid entry never changes the hash of its stray trie: a write
/// with a valid entry passes the boundary check and the hash check.
pub proof fn law_valid_entry_keeps_hash(
    store: Map<Digest, NodeView>,
    root: NodeView,
    entry: Seq<(Seq<u8>, NodeView)>,
    key: Seq<u8>,
    value: Seq<u8>,
)
    requires
        store_wf(store),
        root.wf(),
        valid_entry(store, root, stray_boundary(store, root, nibbles_of(key)), entry),
    ensures
        ({
            let path = nibbles_of(key);
            let boundary = stray_boundary(store, root, path);
            let loaded = load(store, root, boundary, entry);
            &&& all_extend(boundary, entry)
            &&& loaded is Ok
            &&& hash_kept(
                loaded->Ok_0.0,
                loaded->Ok_0.1,
                boundary,
                stray_root(store, root, path).hash(),
            )
            &&& checked_write(store, root, entry, key, value) != Err::<
                (Map<Digest, NodeView>, NodeView),
                Error,
            >(Error::HashMismatch)
        }),
{
    let path = nibbles_of(key);
    let boundary = stray_boundary(store, root, path);
    lemma_boundary(store, root, path);
    lemma_walk_prefix(store, root, path, boundary_depth(store, root, path));
    assert(node_at(store, root, boundary) == Some(stray_root(store, root, path)));
    lemma_load_keeps_hash(store, root, boundary, entry, boundary);
    assert forall|i: int| 0 <= i < entry.len() implies key_fits((#[trigger] entry[i]).0)
        && extends(boundary, nibbles_of(entry[i].0)) by {
        lemma_valid_entry_extends(store, root, boundary, entry, i);
    }
}

/// Loading an entry is loading its first `n` nodes and then the others.
pub proof fn lemma_load_split(
    store: Map<Digest, NodeView>,
    root: NodeView,
    boundary: Seq<u8>,
    entry: Seq<(Seq<u8>, NodeView)>,
    n: int,
)
    requires
        0 <= n <= entry.len(),
    ensures
        load(store, root, boundary, entry) == (match load(store, root, boundary, entry.take(n)) {
            Err(e) => Err(e),
            Ok((s, r)) => load(s, r, boundary, entry.skip(n)),
        }),
    decreases n,
{
    if n == 0 {
        assert(entry.take(0).len() == 0);
        assert(entry.skip(0) =~= entry);
    } else {
        let first = entry.take(n);
        assert(first[0] == entry[0]);
        assert(first.skip(1) =~= entry.skip(1).take(n - 1));
        assert(entry.skip(1).skip(n - 1) =~= entry.skip(n));
        match load_node(store, root, boundary, entry[0].0, entry[0].1) {
            Err(e) => {},
            Ok((s, r)) => {
                lemma_load_split(s, r, boundary, entry.skip(1), n - 1);
            },
        }
    }
}

/// A write is rejected with a hash mismatch where the keys of its entry
/// extend the boundary and a node of the entry is none of the nodes that the
/// skeleton expects on the path of its key at the time the node is loaded:
/// neither a node that the skeleton has on the path, nor the node that the
/// first unresolved slot on the path names. The write is not applied.
pub proof fn law_unexpected_node_is_a_hash_mismatch(
    store: Map<Digest, NodeView>,
    root: NodeView,
    entry: Seq<(Seq<u8>, NodeView)>,
    key: Seq<u8>,
    value: Seq<u8>,
    i: int,
)
    requires
        0 <= i < entry.len(),
        all_extend(stray_boundary(store, root, nibbles_of(key)), entry),
        load(store, root, stray_boundary(store, root, nibbles_of(key)), entry.take(i)) is Ok,
        ({
            let before = load(
                store,
                root,
                stray_boundary(store, root, nibbles_of(key)),
                entry.take(i),
            )->Ok_0;
            !expected(before.0, before.1, nibbles_of(entry[i].0), entry[i].1)
        }),
    ensures
        checked_write(store, root, entry, key, value) == Err::<
            (Map<Digest, NodeView>, NodeView),
            Error,
        >(Error::HashMismatch),
{
    let boundary = stray_boundary(store, root, nibbles_of(key));
    lemma_load_split(store, root, boundary, entry, i);
    let rest = entry.skip(i);
    assert(rest[0] == entry[i]);
    assert(key_fits(entry[i].0) && extends(boundary, nibbles_of(entry[i].0)));
}

/// Changing the value of a node of a valid entry makes a hash mismatch, and
/// the write is not applied, unless hashes collide: the node with the changed
/// value is to have a hash other than that of the node itself, and other
/// than that of every other node that the skeleton has or awaits on the path
/// of the node's key at the time the node is loaded.
pub proof fn law_flipped_value_is_a_hash_mismatch(
    store: Map<Digest, NodeView>,
    root: NodeView,
    entry: Seq<(Seq<u8>, NodeView)>,
    key: Seq<u8>,
    value: Seq<u8>,
    i: int,
    other: Seq<u8>,
)
    requires
        store_wf(store),
        root.wf(),
        valid_entry(store, root, stray_boundary(store, root, nibbles_of(key)), entry),
        0 <= i < entry.len(),
        entry[i].1.with_value(other).hash() != entry[i].1.hash(),
        ({
            let boundary = stray_boundary(store, root, nibbles_of(key));
            let before = load(store, root, boundary, entry.take(i))->Ok_0;
            let path = nibbles_of(entry[i].0);
            let trail = walk(before.0, before.1, path);
            forall|j: int|
                0 <= j < trail.len() && j < path.len() && (#[trigger] trail[j]).slot(
                    path[j] as int,
                ) != entry[i].1.hash() ==> trail[j].slot(path[j] as int) != entry[i].1.with_value(
                    other,
                ).hash()
        }),
    ensures
        checked_write(
            store,
            root,
            entry.update(i, (entry[i].0, entry[i].1.with_value(other))),
            key,
            value,
        ) == Err::<(Map<Digest, NodeView>, NodeView), Error>(Error::HashMismatch),
{
    let boundary = stray_boundary(store, root, nibbles_of(key));
    let flipped = entry[i].1.with_value(other);
    let changed = entry.update(i, (entry[i].0, flipped));
    let path = nibbles_of(entry[i].0);
    // The entry loads, and so do its first nodes.
    assert(node_at(store, root, Seq::<u8>::empty()) == Some(root));
    lemma_load_keeps_hash(store, root, boundary, entry, Seq::<u8>::empty());
    lemma_load_split(store, root, boundary, entry, i);
    let before = load(store, root, boundary, entry.take(i))->Ok_0;
    let trail = walk(before.0, before.1, path);
    assert(changed.take(i) =~= entry.take(i));
    assert forall|k: int| 0 <= k < changed.len() implies key_fits((#[trigger] changed[k]).0)
        && extends(boundary, nibbles_of(changed[k].0)) by {
        lemma_valid_entry_extends(store, root, boundary, entry, k);
    }
    // The skeleton expects the node of the entry, and so no node with another hash.
    assert(entry.skip(i)[0] == entry[i]);
    assert(install_result(before.0, before.1, path, entry[i].1) is Ok);
    assert(expected(before.0, before.1, path, entry[i].1));
    if on_walk(before.0, before.1, path, flipped.hash()) {
        let j = choose|j: int|
            0 <= j < trail.len() - 1 && (#[trigger] trail[j]).slot(path[j] as int)
                == flipped.hash();
        lemma_walk(before.0, before.1, path);
        assert(trail[j].slot(path[j] as int) != entry[i].1.hash());
    }
    assert(!expected(before.0, before.1, path, flipped));
    law_unexpected_node_is_a_hash_mismatch(store, root, changed, key, value, i);
}

/// A write is rejected with a hash mismatch exactly when the keys of its
/// entry extend the boundary and a node of the entry is none of the nodes
/// that the skeleton expects, or the load has changed the hash of the stray
/// trie.
pub proof fn law_hash_mismatch_is_a_changed_hash(
    store: Map<Digest, NodeView>,
    root: NodeView,
    entry: Seq<(Seq<u8>, NodeView)>,
    key: Seq<u8>,
    value: Seq<u8>,
)
    ensures
        ({
            let path = nibbles_of(key);
            let boundary = stray_boundary(store, root, path);
            let before = stray_root(store, root, path).hash();
            let loaded = load(store, root, boundary, entry);
            checked_write(store, root, entry, key, value) == Err::<
                (Map<Digest, NodeView>, NodeView),
                Error,
            >(Error::HashMismatch) <==> all_extend(boundary, entry) && (loaded is Err
                || !hash_kept(loaded->Ok_0.0, loaded->Ok_0.1, boundary, before))
        }),
{
    let boundary = stray_boundary(store, root, nibbles_of(key));
    if all_extend(boundary, entry) && load(store, root, boundary, entry) is Err {
        lemma_load_error(store, root, boundary, entry);
    }
}

} // verus!
