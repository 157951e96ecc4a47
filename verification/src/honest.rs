//! What an honest capture session hands over is accepted: the entry that it
//! derives for a write is valid for every skeleton that is a part of its
//! trie, and the replayed write reaches the root that the session reached.

use vstd::prelude::*;
use crate::capture::path_nodes;
use crate::db::{store_put, store_wf};
use crate::descent::{
    climb, expected, install_result, lemma_boundary, lemma_install_expected, lemma_put_grows,
    lemma_walk, lemma_walk_longer, lemma_walk_nodes, lemma_walk_reparented, names_next, on_walk,
    put_result, steps_down, stray_boundary, walk, within,
};
use crate::digest::{null_hash, Digest};

use crate::laws::{law_valid_entry_keeps_hash, valid_entry};
use crate::nibbles::{extends, is_path, key_fits, lemma_nibbles_are_path, nibbles_of};
use crate::node::NodeView;
use crate::replay::{checked_write, load};
use crate::semantics::{base_at, climbs_cleanly, same_content, writes_cleanly};

verus! {

/// Whether every node of `held` is a node of `full`: held there under the
/// same hash, with the same content.
pub open spec fn part_of(held: Map<Digest, NodeView>, full: Map<Digest, NodeView>) -> bool {
    forall|h: Digest| #[trigger]
        held.contains_key(h) ==> full.contains_key(h) && same_content(held[h], full[h])
}

/// What nodes with the same content have in common.
pub proof fn lemma_same_content(a: NodeView, b: NodeView)
    requires
        same_content(a, b),
    ensures
        a.hash() == b.hash(),
        a.wf() == b.wf(),
        a.stored() == b.stored(),
        a is Branch <==> b is Branch,
        a is Leaf <==> b is Leaf,
        a is Proof <==> b is Proof,
        forall|k: int| a.slot(k) == b.slot(k),
        forall|v: Seq<u8>| same_content(a.with_value(v), b.with_value(v)),
        same_content(a.as_branch(), b.as_branch()),
        forall|k: int, h: Digest| same_content(a.with_slot(k, h), b.with_slot(k, h)),
{
    let x = a.with_parent(None);
    let y = b.with_parent(None);
    assert(x == y);
    assert(x.hash() == a.hash());
    assert(y.hash() == b.hash());
    assert forall|k: int| a.slot(k) == b.slot(k) by {
        assert(x.slot(k) == a.slot(k));
        assert(y.slot(k) == b.slot(k));
    }
    assert forall|v: Seq<u8>| same_content(a.with_value(v), b.with_value(v)) by {
        assert(a.with_value(v).with_parent(None) == x.with_value(v).with_parent(None));
        assert(b.with_value(v).with_parent(None) == y.with_value(v).with_parent(None));
    }
    assert(a.as_branch().with_parent(None) == x.as_branch().with_parent(None));
    assert(b.as_branch().with_parent(None) == y.as_branch().with_parent(None));
    assert forall|k: int, h: Digest| same_content(a.with_slot(k, h), b.with_slot(k, h)) by {
        assert(a.with_slot(k, h).with_parent(None) == x.with_slot(k, h).with_parent(None));
        assert(b.with_slot(k, h).with_parent(None) == y.with_slot(k, h).with_parent(None));
    }
}

/// A walk in a part of a trie is the start of the walk in the trie: it is no
/// longer, and its nodes have the content of the nodes of that walk.
pub proof fn lemma_walk_part(
    held: Map<Digest, NodeView>,
    full: Map<Digest, NodeView>,
    a: NodeView,
    b: NodeView,
    path: Seq<u8>,
)
    requires
        part_of(held, full),
        same_content(a, b),
    ensures
        walk(held, a, path).len() <= walk(full, b, path).len(),
        forall|i: int|
            0 <= i < walk(held, a, path).len() ==> same_content(
                #[trigger] walk(held, a, path)[i],
                walk(full, b, path)[i],
            ),
    decreases path.len(),
{
    lemma_same_content(a, b);
    let w = walk(held, a, path);
    let t = walk(full, b, path);
    if path.len() > 0 && steps_down(held, a, path[0]) {
        let h = a.slot(path[0] as int);
        assert(held.contains_key(h));
        assert(b.slot(path[0] as int) == h);
        assert(steps_down(full, b, path[0]));
        lemma_walk_part(held, full, held[h], full[h], path.skip(1));
        let w2 = walk(held, held[h], path.skip(1));
        let t2 = walk(full, full[h], path.skip(1));
        assert(w =~= seq![a] + w2);
        assert(t =~= seq![b] + t2);
        assert forall|i: int| 0 <= i < w.len() implies same_content(#[trigger] w[i], t[i]) by {
            if i > 0 {
                assert(w[i] == w2[i - 1]);
                assert(t[i] == t2[i - 1]);
            }
        }
    } else {
        lemma_walk(full, b, path);
        assert(w =~= seq![a]);
    }
}

/// The entry that a session derives for a write, from the node at depth
/// `j + 1` on, is valid for a skeleton that is a part of the session's trie
/// and reaches depth `j` on the written path; and after the load the skeleton
/// is still a part of the trie and reaches as deep as the trie does.
pub proof fn lemma_honest_rest(
    full: Map<Digest, NodeView>,
    top: NodeView,
    held: Map<Digest, NodeView>,
    root: NodeView,
    boundary: Seq<u8>,
    key: Seq<u8>,
    j: int,
)
    requires
        store_wf(full),
        store_wf(held),
        part_of(held, full),
        same_content(root, top),
        root.wf(),
        key_fits(key),
        extends(boundary, nibbles_of(key)),
        0 <= j < walk(full, top, nibbles_of(key)).len(),
        walk(held, root, nibbles_of(key)).len() >= j + 1,
    ensures
        valid_entry(held, root, boundary, path_nodes(full, top, key).skip(j)),
        ({
            let loaded = load(held, root, boundary, path_nodes(full, top, key).skip(j));
            &&& loaded is Ok
            &&& store_wf(loaded->Ok_0.0)
            &&& within(held, loaded->Ok_0.0)
            &&& part_of(loaded->Ok_0.0, full)
            &&& same_content(loaded->Ok_0.1, top)
            &&& loaded->Ok_0.1.wf()
            &&& walk(loaded->Ok_0.0, loaded->Ok_0.1, nibbles_of(key)).len() == walk(
                full,
                top,
                nibbles_of(key),
            ).len()
        }),
    decreases walk(full, top, nibbles_of(key)).len() - j,
{
    let path = nibbles_of(key);
    let t = walk(full, top, path);
    let m = t.len() - 1;
    let entry = path_nodes(full, top, key);
    let rest = entry.skip(j);
    let w = walk(held, root, path);
    lemma_nibbles_are_path(key);
    lemma_walk(full, top, path);
    lemma_walk_nodes(full, top, path);
    lemma_walk(held, root, path);
    lemma_walk_part(held, full, root, top, path);
    if j == m {
        assert(rest.len() == 0);
    } else {
        let node = t[j + 1];
        let h = t[j].slot(path[j] as int);
        assert(rest[0] == (key, node));
        assert(steps_down(full, t[j], path[j]));
        assert(node == full[h]);
        assert(node.hash() == h);
        lemma_same_content(w[j], t[j]);
        assert(w[j].slot(path[j] as int) == h);
        if held.contains_key(h) {
            // The skeleton has the node on the path already.
            assert(steps_down(held, w[j], path[j]));
            assert(j < w.len() - 1);
            assert(on_walk(held, root, path, h));
        } else {
            // The walk ends at the slot that names the node.
            if w.len() - 1 > j {
                assert(steps_down(held, w[j], path[j]));
            }
            assert(w.len() - 1 == j);
            assert(names_next(held, root, path, h));
        }
        assert(expected(held, root, path, node));
        lemma_install_expected(held, root, path, node);
        let after = install_result(held, root, path, node)->Ok_0;
        assert(part_of(after.0, full)) by {
            assert forall|k: Digest| #[trigger] after.0.contains_key(k) implies full.contains_key(
                k,
            ) && same_content(after.0[k], full[k]) by {
                if held.contains_key(k) {
                } else {
                    assert(k == h);
                }
            }
        }
        assert(same_content(after.1, top));
        // The skeleton now reaches depth j + 1.
        lemma_walk_longer(held, after.0, root, path);
        lemma_walk_reparented(after.0, root, None, path);
        let w2 = walk(after.0, after.1, path);
        assert(w2.len() >= j + 1);
        lemma_walk(after.0, after.1, path);
        lemma_walk_part(after.0, full, after.1, top, path);
        if w2.len() - 1 == j {
            lemma_same_content(w2[j], t[j]);
            assert(after.0.contains_key(h));
            assert(steps_down(after.0, w2[j], path[j]));
        }
        assert(rest.skip(1) =~= entry.skip(j + 1));
        lemma_honest_rest(full, top, after.0, after.1, boundary, key, j + 1);
        let last = load(after.0, after.1, boundary, entry.skip(j + 1))->Ok_0;
        assert forall|k: Digest| #[trigger] held.contains_key(k) implies last.0.contains_key(k)
            && last.0[k] == held[k] by {
            assert(after.0.contains_key(k));
        }
    }
}

/// The entry that a session derives for a write is valid for every skeleton
/// that is a part of the session's trie and has its root: it loads, and the
/// load changes no hash.
pub proof fn law_honest_entry_is_valid(
    full: Map<Digest, NodeView>,
    top: NodeView,
    held: Map<Digest, NodeView>,
    root: NodeView,
    key: Seq<u8>,
)
    requires
        store_wf(full),
        store_wf(held),
        part_of(held, full),
        same_content(root, top),
        root.wf(),
        key_fits(key),
    ensures
        valid_entry(
            held,
            root,
            stray_boundary(held, root, nibbles_of(key)),
            path_nodes(full, top, key),
        ),
{
    let path = nibbles_of(key);
    lemma_boundary(held, root, path);
    lemma_walk(full, top, path);
    lemma_walk(held, root, path);
    let entry = path_nodes(full, top, key);
    assert(entry.skip(0) =~= entry);
    lemma_honest_rest(full, top, held, root, stray_boundary(held, root, path), key, 0);
}

/// Rewriting a path keeps a content-addressed store content-addressed.
pub proof fn lemma_climb_wf(
    store: Map<Digest, NodeView>,
    trail: Seq<NodeView>,
    path: Seq<u8>,
    i: int,
    cur: NodeView,
)
    requires
        store_wf(store),
        is_path(path),
        0 <= i <= path.len(),
        cur.wf(),
        !(cur is Proof),
        forall|j: int| 0 <= j < trail.len() ==> !(#[trigger] trail[j] is Proof) && trail[j].wf(),
    ensures
        store_wf(climb(store, trail, path, i, cur).0),
        climb(store, trail, path, i, cur).1.wf(),
    decreases i,
{
    if i > 0 {
        let base = base_at(trail, i - 1);
        let up = base.with_slot(path[i - 1] as int, cur.hash());
        let kept = cur.with_parent(Some(up.hash()));
        let next = store_put(store, cur.hash(), kept);
        assert(base is Branch && base.wf());
        assert(up.wf());
        assert(store_wf(next)) by {
            assert forall|k: Digest| #[trigger] next.contains_key(k) implies k != null_hash()
                && next[k].hash() == k && !(next[k] is Proof) && next[k].wf() by {
                if store.contains_key(k) {
                } else {
                    assert(k == cur.hash());
                    assert(next[k] == kept);
                }
            }
        }
        lemma_climb_wf(next, trail, path, i - 1, up);
    }
}

/// A write keeps a content-addressed store content-addressed.
pub proof fn lemma_put_wf(
    store: Map<Digest, NodeView>,
    root: NodeView,
    path: Seq<u8>,
    value: Seq<u8>,
)
    requires
        store_wf(store),
        root.wf(),
        is_path(path),
        put_result(store, root, path, value) is Ok,
    ensures
        store_wf(put_result(store, root, path, value)->Ok_0.0),
        put_result(store, root, path, value)->Ok_0.1.wf(),
{
    let trail = walk(store, root, path);
    let d = trail.len() - 1;
    lemma_walk(store, root, path);
    lemma_walk_nodes(store, root, path);
    if d == path.len() {
        lemma_climb_wf(store, trail, path, d, trail.last().with_value(value));
    } else {
        lemma_climb_wf(
            store,
            trail,
            path,
            path.len() as int,
            NodeView::Leaf { value, parent: null_hash() },
        );
    }
}

/// Two rewrites that start from nodes with the same content, above trails
/// with the same content, reach the same root. Where the rewrite in the trie
/// meets no collision, the one in a part of the trie meets none, and its
/// store is a part of the store that the trie's rewrite leaves.
pub proof fn lemma_climb_alike(
    held: Map<Digest, NodeView>,
    full: Map<Digest, NodeView>,
    w: Seq<NodeView>,
    t: Seq<NodeView>,
    path: Seq<u8>,
    i: int,
    a: NodeView,
    b: NodeView,
)
    requires
        part_of(held, full),
        same_content(a, b),
        forall|j: int| 0 <= j < i ==> same_content(#[trigger] base_at(w, j), base_at(t, j)),
        climbs_cleanly(full, t, path, i, b),
    ensures
        climb(held, w, path, i, a).1 == climb(full, t, path, i, b).1,
        part_of(climb(held, w, path, i, a).0, climb(full, t, path, i, b).0),
        climbs_cleanly(held, w, path, i, a),
    decreases i,
{
    lemma_same_content(a, b);
    if i > 0 {
        let h = a.hash();
        let up_a = base_at(w, i - 1).with_slot(path[i - 1] as int, h);
        let up_b = base_at(t, i - 1).with_slot(path[i - 1] as int, h);
        lemma_same_content(base_at(w, i - 1), base_at(t, i - 1));
        assert(same_content(up_a, up_b));
        let kept_a = a.with_parent(Some(up_a.hash()));
        let kept_b = b.with_parent(Some(up_b.hash()));
        let next_a = store_put(held, h, kept_a);
        let next_b = store_put(full, h, kept_b);
        assert(same_content(kept_a, a));
        assert(same_content(kept_b, b));
        assert(part_of(next_a, next_b)) by {
            assert forall|k: Digest| #[trigger] next_a.contains_key(k) implies next_b.contains_key(
                k,
            ) && same_content(next_a[k], next_b[k]) by {
                if held.contains_key(k) {
                    assert(full.contains_key(k));
                } else {
                    assert(k == h);
                }
            }
        }
        if held.contains_key(h) {
            assert(full.contains_key(h));
        }
        lemma_climb_alike(next_a, next_b, w, t, path, i - 1, up_a, up_b);
    }
}

/// The write that a session applies is accepted by every skeleton that is a
/// part of the session's trie and has its root: with the entry that the
/// session derives for it, the replayed write passes every check and reaches
/// the root that the session reaches, and the skeleton stays a part of the
/// session's trie. The session's write has to meet no collision.
pub proof fn law_honest_write_is_accepted(
    full: Map<Digest, NodeView>,
    top: NodeView,
    held: Map<Digest, NodeView>,
    root: NodeView,
    key: Seq<u8>,
    value: Seq<u8>,
)
    requires
        store_wf(full),
        store_wf(held),
        part_of(held, full),
        same_content(root, top),
        root.wf(),
        key_fits(key),
        put_result(full, top, nibbles_of(key), value) is Ok,
        writes_cleanly(full, top, nibbles_of(key), value),
    ensures
        ({
            let replayed = checked_write(held, root, path_nodes(full, top, key), key, value);
            let applied = put_result(full, top, nibbles_of(key), value)->Ok_0;
            &&& replayed is Ok
            &&& replayed->Ok_0.1 == applied.1
            &&& part_of(replayed->Ok_0.0, applied.0)
            &&& store_wf(replayed->Ok_0.0)
            &&& replayed->Ok_0.1.wf()
            &&& within(held, replayed->Ok_0.0)
        }),
{
    let path = nibbles_of(key);
    let entry = path_nodes(full, top, key);
    let boundary = stray_boundary(held, root, path);
    let t = walk(full, top, path);
    lemma_nibbles_are_path(key);
    lemma_boundary(held, root, path);
    lemma_walk(full, top, path);
    lemma_walk_nodes(full, top, path);
    lemma_walk(held, root, path);
    assert(entry.skip(0) =~= entry);
    lemma_honest_rest(full, top, held, root, boundary, key, 0);
    law_valid_entry_keeps_hash(held, root, entry, key, value);
    let loaded = load(held, root, boundary, entry)->Ok_0;
    let w = walk(loaded.0, loaded.1, path);
    lemma_walk(loaded.0, loaded.1, path);
    lemma_walk_part(loaded.0, full, loaded.1, top, path);
    let d = t.len() - 1;
    lemma_same_content(w[d], t[d]);
    assert forall|j: int| 0 <= j < path.len() implies same_content(
        #[trigger] base_at(w, j),
        base_at(t, j),
    ) by {
        if j < t.len() {
            lemma_same_content(w[j], t[j]);
        }
    }
    let a = if d == path.len() {
        w.last().with_value(value)
    } else {
        NodeView::Leaf { value, parent: null_hash() }
    };
    let b = if d == path.len() {
        t.last().with_value(value)
    } else {
        NodeView::Leaf { value, parent: null_hash() }
    };
    assert(same_content(a, b));
    lemma_climb_alike(loaded.0, full, w, t, path, path.len() as int, a, b);
    assert(put_result(loaded.0, loaded.1, path, value) is Ok);
    lemma_put_wf(loaded.0, loaded.1, path, value);
    lemma_put_grows(loaded.0, loaded.1, path, value);
    let last = put_result(loaded.0, loaded.1, path, value)->Ok_0.0;
    assert forall|k: Digest| #[trigger] held.contains_key(k) implies last.contains_key(k)
        && last[k] == held[k] by {
        assert(loaded.0.contains_key(k));
    }
}

} // verus!
