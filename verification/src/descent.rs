//! Descending a trie by path, and rewriting the path above a changed node.
//!
//! A trie is a root node and a store that resolves child hashes. Nodes are
//! never changed in place: a write makes new nodes from the changed position
//! up to a new root, and stores each of them under its hash.

use vstd::prelude::*;
use crate::db::{store_put, store_wf, TrieDB};
use crate::digest::{null_hash, Digest};
use crate::error::Error;
use crate::nibbles::{extends, is_path, Nibbles};
use crate::node::{empty_branch, option_view, Node, NodeView};

verus! {

/// The views of a run of nodes.
pub open spec fn views(nodes: Seq<Node>) -> Seq<NodeView> {
    nodes.map_values(|n: Node| n@)
}

/// Whether a descent can go below `node` under `digit`: the node is a branch
/// and the store holds the child that the slot names.
pub open spec fn steps_down(store: Map<Digest, NodeView>, node: NodeView, digit: u8) -> bool {
    &&& node is Branch
    &&& node.slot(digit as int) != null_hash()
    &&& store.contains_key(node.slot(digit as int))
}

/// The nodes met on the way down `path`, starting with `node` itself. The
/// descent ends with the path, or at the first node it cannot go below.
pub open spec fn walk(store: Map<Digest, NodeView>, node: NodeView, path: Seq<u8>) -> Seq<
    NodeView,
>
    decreases path.len(),
{
    if path.len() > 0 && steps_down(store, node, path[0]) {
        seq![node] + walk(store, store[node.slot(path[0] as int)], path.skip(1))
    } else {
        seq![node]
    }
}

/// The shape of a walk: it starts at the node, each step follows the slot of
/// the path's next digit through the store, and it stops before the end of the
/// path only where it cannot go on.
pub proof fn lemma_walk(store: Map<Digest, NodeView>, node: NodeView, path: Seq<u8>)
    ensures
        ({
            let t = walk(store, node, path);
            &&& 1 <= t.len() <= path.len() + 1
            &&& t[0] == node
            &&& forall|i: int|
                0 <= i < t.len() - 1 ==> steps_down(store, #[trigger] t[i], path[i]) && t[i + 1]
                    == store[t[i].slot(path[i] as int)]
            &&& (t.len() <= path.len() ==> !steps_down(store, t.last(), path[t.len() - 1]))
        }),
    decreases path.len(),
{
    if path.len() > 0 && steps_down(store, node, path[0]) {
        let child = store[node.slot(path[0] as int)];
        let rest = walk(store, child, path.skip(1));
        lemma_walk(store, child, path.skip(1));
        let t = walk(store, node, path);
        assert(t =~= seq![node] + rest);
        assert forall|i: int| 0 <= i < t.len() - 1 implies steps_down(
            store,
            #[trigger] t[i],
            path[i],
        ) && t[i + 1] == store[t[i].slot(path[i] as int)] by {
            if i > 0 {
                assert(t[i] == rest[i - 1]);
                assert(t[i + 1] == rest[i]);
                assert(path.skip(1)[i - 1] == path[i]);
            } else {
                assert(t[1] == rest[0]);
            }
        }
        if t.len() <= path.len() {
            assert(t.last() == rest.last());
            assert(path.skip(1)[rest.len() - 1] == path[t.len() - 1]);
        }
    }
}

/// In a content-addressed store, only the first node of a walk can be a proof
/// node, and every later one is well formed.
pub proof fn lemma_walk_nodes(store: Map<Digest, NodeView>, node: NodeView, path: Seq<u8>)
    requires
        store_wf(store),
    ensures
        forall|i: int|
            1 <= i < walk(store, node, path).len() ==> !(#[trigger] walk(store, node, path)[i]
                is Proof) && walk(store, node, path)[i].wf(),
{
    lemma_walk(store, node, path);
    let t = walk(store, node, path);
    assert forall|i: int| 1 <= i < t.len() implies !(#[trigger] t[i] is Proof) && t[i].wf() by {
        assert(steps_down(store, t[i - 1], path[i - 1]));
        assert(t[i] == store[t[i - 1].slot(path[i - 1] as int)]);
    }
}

/// The value that a descent along `path` finds: the value stored at the end of
/// the path, `None` where the path ends early at an empty slot or below a
/// leaf, and a storage miss where a hash on the way is not held.
pub open spec fn lookup(store: Map<Digest, NodeView>, root: NodeView, path: Seq<u8>) -> Result<
    Option<Seq<u8>>,
    Error,
> {
    let trail = walk(store, root, path);
    let d = trail.len() - 1;
    let last = trail.last();
    if last is Proof {
        Err(Error::StorageMiss)
    } else if d == path.len() {
        Ok(last.stored())
    } else if last is Branch && last.slot(path[d] as int) != null_hash() {
        Err(Error::StorageMiss)
    } else {
        Ok(None)
    }
}

/// The store and the root after the path above a changed node is rewritten.
///
/// `cur` is the new node at depth `i`. Its parent is the node that the trail
/// holds at depth `i - 1` (a leaf there becomes a branch that keeps its value;
/// below the end of the trail it is a new branch without other children), with
/// the slot for the path's digit set to the hash of `cur`. `cur` is stored with
/// that parent's hash as its parent reference, and the parent is rewritten in
/// turn, up to the root, which has no parent and is not stored.
pub open spec fn climb(
    store: Map<Digest, NodeView>,
    trail: Seq<NodeView>,
    path: Seq<u8>,
    i: int,
    cur: NodeView,
) -> (Map<Digest, NodeView>, NodeView)
    decreases i,
{
    if i <= 0 {
        (store, cur.with_parent(None))
    } else {
        let base = if i - 1 < trail.len() {
            trail[i - 1].as_branch()
        } else {
            empty_branch()
        };
        let up = base.with_slot(path[i - 1] as int, cur.hash());
        climb(
            store_put(store, cur.hash(), cur.with_parent(Some(up.hash()))),
            trail,
            path,
            i - 1,
            up,
        )
    }
}

/// The store and the root after `value` is written at `path`.
///
/// Where the path exists, the node at its end takes the value. Where it ends
/// early at an empty slot or at a leaf, a new leaf is made at the end of the
/// path, under new branches. Where a hash on the way is not held, the write is
/// a storage miss and nothing changes.
pub open spec fn put_result(
    store: Map<Digest, NodeView>,
    root: NodeView,
    path: Seq<u8>,
    value: Seq<u8>,
) -> Result<(Map<Digest, NodeView>, NodeView), Error> {
    let trail = walk(store, root, path);
    let d = trail.len() - 1;
    let last = trail.last();
    if last is Proof {
        Err(Error::StorageMiss)
    } else if d == path.len() {
        Ok(climb(store, trail, path, d, last.with_value(value)))
    } else if last is Branch && last.slot(path[d] as int) != null_hash() {
        Err(Error::StorageMiss)
    } else {
        Ok(
            climb(
                store,
                trail,
                path,
                path.len() as int,
                NodeView::Leaf { value, parent: null_hash() },
            ),
        )
    }
}

/// Whether the walk along `path` has gone through a slot that names `h`:
/// the skeleton has a node with that hash on the path.
pub open spec fn on_walk(
    store: Map<Digest, NodeView>,
    root: NodeView,
    path: Seq<u8>,
    h: Digest,
) -> bool {
    let trail = walk(store, root, path);
    exists|j: int| 0 <= j < trail.len() - 1 && (#[trigger] trail[j]).slot(path[j] as int) == h
}

/// Whether `h` is the hash that the first unresolved slot on `path` names:
/// the walk ends at a branch whose slot for the next digit holds `h`, and the
/// store holds no node under it.
pub open spec fn names_next(
    store: Map<Digest, NodeView>,
    root: NodeView,
    path: Seq<u8>,
    h: Digest,
) -> bool {
    let trail = walk(store, root, path);
    let d = trail.len() - 1;
    &&& d < path.len()
    &&& trail.last() is Branch
    &&& h != null_hash()
    &&& trail.last().slot(path[d] as int) == h
}

/// Whether `node` is what the skeleton expects on `path`: a node that it has
/// on the path already, or the node that the first unresolved slot on the
/// path names.
pub open spec fn expected(
    store: Map<Digest, NodeView>,
    root: NodeView,
    path: Seq<u8>,
    node: NodeView,
) -> bool {
    on_walk(store, root, path, node.hash()) || names_next(store, root, path, node.hash())
}

/// The store and the root after `node` is installed on `path`.
///
/// A node that the skeleton has on the path already changes nothing. The
/// node that the first unresolved slot on the path names takes the place of
/// the subtree that was known by its hash alone, and the path above it is
/// rewritten; a proof node with that hash leaves the subtree unresolved. Any
/// other node is none of the nodes on the path, whether the store holds it
/// or not: that is a hash mismatch.
pub open spec fn install_result(
    store: Map<Digest, NodeView>,
    root: NodeView,
    path: Seq<u8>,
    node: NodeView,
) -> Result<(Map<Digest, NodeView>, NodeView), Error> {
    let trail = walk(store, root, path);
    if on_walk(store, root, path, node.hash()) {
        Ok((store, root))
    } else if names_next(store, root, path, node.hash()) {
        if node is Proof {
            Ok((store, root))
        } else {
            Ok(climb(store, trail, path, trail.len() as int, node))
        }
    } else {
        Err(Error::HashMismatch)
    }
}

/// The depth of the nearest branch above the end of `path` that the descent
/// reaches: the deepest node of the walk that is a proper ancestor of the
/// path's end and a branch, or the root where there is none below it.
pub open spec fn boundary_depth(
    store: Map<Digest, NodeView>,
    root: NodeView,
    path: Seq<u8>,
) -> int {
    let trail = walk(store, root, path);
    let d = trail.len() - 1;
    if d > 0 && (d == path.len() || !(trail[d] is Branch)) {
        d - 1
    } else {
        d
    }
}

/// The path from the root to the root of the stray trie of a write at `path`.
pub open spec fn stray_boundary(store: Map<Digest, NodeView>, root: NodeView, path: Seq<u8>) -> Seq<
    u8,
> {
    path.take(boundary_depth(store, root, path))
}

/// The root of the stray trie of a write at `path`.
pub open spec fn stray_root(
    store: Map<Digest, NodeView>,
    root: NodeView,
    path: Seq<u8>,
) -> NodeView {
    walk(store, root, path)[boundary_depth(store, root, path)]
}

/// The node at the end of `path`, where the descent reaches it.
pub open spec fn node_at(store: Map<Digest, NodeView>, root: NodeView, path: Seq<u8>) -> Option<
    NodeView,
> {
    let trail = walk(store, root, path);
    if trail.len() == path.len() + 1 {
        Some(trail.last())
    } else {
        None
    }
}

/// The boundary of a stray trie is a prefix of the written path, and its root
/// is a node of the walk.
pub proof fn lemma_boundary(store: Map<Digest, NodeView>, root: NodeView, path: Seq<u8>)
    ensures
        0 <= boundary_depth(store, root, path) <= path.len(),
        boundary_depth(store, root, path) < walk(store, root, path).len(),
        extends(stray_boundary(store, root, path), path),
        is_path(path) ==> is_path(stray_boundary(store, root, path)),
{
    lemma_walk(store, root, path);
    let b = stray_boundary(store, root, path);
    assert(path.subrange(0, b.len() as int) =~= b);
}

/// Rewriting a path gives a root: a branch without a parent.
pub proof fn lemma_climb_root(
    store: Map<Digest, NodeView>,
    trail: Seq<NodeView>,
    path: Seq<u8>,
    i: int,
    cur: NodeView,
)
    requires
        i <= 0 ==> cur is Branch,
        forall|j: int| 0 <= j < trail.len() ==> !(#[trigger] trail[j] is Proof),
    ensures
        climb(store, trail, path, i, cur).1.is_root(),
    decreases i,
{
    if i > 0 {
        let base = if i - 1 < trail.len() {
            trail[i - 1].as_branch()
        } else {
            empty_branch()
        };
        let up = base.with_slot(path[i - 1] as int, cur.hash());
        assert(up is Branch);
        lemma_climb_root(
            store_put(store, cur.hash(), cur.with_parent(Some(up.hash()))),
            trail,
            path,
            i - 1,
            up,
        );
    }
}

/// No node of a walk from a root in a content-addressed store is a proof node.
pub proof fn lemma_walk_from_root(store: Map<Digest, NodeView>, root: NodeView, path: Seq<u8>)
    requires
        store_wf(store),
        root.is_root(),
    ensures
        forall|j: int|
            0 <= j < walk(store, root, path).len() ==> !(#[trigger] walk(store, root, path)[j]
                is Proof),
{
    lemma_walk(store, root, path);
    lemma_walk_nodes(store, root, path);
}

/// A write to a trie with a root gives a trie with a root.
pub proof fn lemma_put_root(
    store: Map<Digest, NodeView>,
    root: NodeView,
    path: Seq<u8>,
    value: Seq<u8>,
)
    requires
        store_wf(store),
        root.is_root(),
        put_result(store, root, path, value) is Ok,
    ensures
        put_result(store, root, path, value)->Ok_0.1.is_root(),
{
    let trail = walk(store, root, path);
    let d = trail.len() - 1;
    lemma_walk(store, root, path);
    lemma_walk_from_root(store, root, path);
    if d == path.len() {
        lemma_climb_root(store, trail, path, d, trail.last().with_value(value));
    } else {
        lemma_climb_root(
            store,
            trail,
            path,
            path.len() as int,
            NodeView::Leaf { value, parent: null_hash() },
        );
    }
}

/// An install into a skeleton with a root gives a skeleton with a root.
pub proof fn lemma_install_root(
    store: Map<Digest, NodeView>,
    root: NodeView,
    path: Seq<u8>,
    node: NodeView,
)
    requires
        store_wf(store),
        root.is_root(),
        install_result(store, root, path, node) is Ok,
    ensures
        install_result(store, root, path, node)->Ok_0.1.is_root(),
{
    if !on_walk(store, root, path, node.hash()) && !(node is Proof) {
        let trail = walk(store, root, path);
        lemma_walk(store, root, path);
        lemma_walk_from_root(store, root, path);
        lemma_climb_root(store, trail, path, trail.len() as int, node);
    }
}

/// Whether store `b` holds every node of store `a`, under the same hash.
pub open spec fn within(a: Map<Digest, NodeView>, b: Map<Digest, NodeView>) -> bool {
    forall|h: Digest| #[trigger] a.contains_key(h) ==> b.contains_key(h) && b[h] == a[h]
}

/// Rewriting a path only adds to the store, and what it adds first is the
/// changed node itself.
pub proof fn lemma_climb_grows(
    store: Map<Digest, NodeView>,
    trail: Seq<NodeView>,
    path: Seq<u8>,
    i: int,
    cur: NodeView,
)
    ensures
        within(store, climb(store, trail, path, i, cur).0),
        i > 0 && cur.hash() != null_hash() ==> climb(store, trail, path, i, cur).0.contains_key(
            cur.hash(),
        ),
    decreases i,
{
    if i > 0 {
        let base = if i - 1 < trail.len() {
            trail[i - 1].as_branch()
        } else {
            empty_branch()
        };
        let up = base.with_slot(path[i - 1] as int, cur.hash());
        let next = store_put(store, cur.hash(), cur.with_parent(Some(up.hash())));
        lemma_climb_grows(next, trail, path, i - 1, up);
        let last = climb(store, trail, path, i, cur).0;
        assert forall|h: Digest| #[trigger] store.contains_key(h) implies last.contains_key(h)
            && last[h] == store[h] by {
            assert(next.contains_key(h));
        }
        if cur.hash() != null_hash() {
            assert(next.contains_key(cur.hash()));
        }
    }
}

/// A write only adds to the store.
pub proof fn lemma_put_grows(
    store: Map<Digest, NodeView>,
    root: NodeView,
    path: Seq<u8>,
    value: Seq<u8>,
)
    requires
        put_result(store, root, path, value) is Ok,
    ensures
        within(store, put_result(store, root, path, value)->Ok_0.0),
{
    let trail = walk(store, root, path);
    let d = trail.len() - 1;
    if d == path.len() {
        lemma_climb_grows(store, trail, path, d, trail.last().with_value(value));
    } else {
        lemma_climb_grows(
            store,
            trail,
            path,
            path.len() as int,
            NodeView::Leaf { value, parent: null_hash() },
        );
    }
}

/// An install only adds to the store, and the store holds the installed node
/// afterwards.
pub proof fn lemma_install_grows(
    store: Map<Digest, NodeView>,
    root: NodeView,
    path: Seq<u8>,
    node: NodeView,
)
    requires
        install_result(store, root, path, node) is Ok,
    ensures
        within(store, install_result(store, root, path, node)->Ok_0.0),
        !(node is Proof) ==> install_result(store, root, path, node)->Ok_0.0.contains_key(
            node.hash(),
        ),
        node is Proof || store.contains_key(node.hash()) ==> install_result(
            store,
            root,
            path,
            node,
        )->Ok_0 == (store, root),
{
    let trail = walk(store, root, path);
    lemma_walk(store, root, path);
    if on_walk(store, root, path, node.hash()) {
        let j = choose|j: int|
            0 <= j < trail.len() - 1 && (#[trigger] trail[j]).slot(path[j] as int) == node.hash();
        assert(steps_down(store, trail[j], path[j]));
    } else if !(node is Proof) {
        lemma_climb_grows(store, trail, path, trail.len() as int, node);
    }
}

/// The walk along a prefix of a path is a prefix of the walk along the path.
pub proof fn lemma_walk_prefix(store: Map<Digest, NodeView>, node: NodeView, path: Seq<u8>, b: int)
    requires
        0 <= b <= path.len(),
        b < walk(store, node, path).len(),
    ensures
        walk(store, node, path.take(b)) == walk(store, node, path).take(b + 1),
    decreases b,
{
    lemma_walk(store, node, path);
    let whole = walk(store, node, path);
    if b == 0 {
        assert(whole.take(1) =~= seq![node]);
    } else {
        let child = store[node.slot(path[0] as int)];
        let rest = path.skip(1);
        assert(whole =~= seq![node] + walk(store, child, rest));
        assert(path.take(b)[0] == path[0]);
        assert(path.take(b).skip(1) =~= rest.take(b - 1));
        lemma_walk_prefix(store, child, rest, b - 1);
        assert(whole.take(b + 1) =~= seq![node] + walk(store, child, rest).take(b));
    }
}

/// A walk that reaches the end of its path is the same in any store that
/// holds at least the same nodes.
pub proof fn lemma_walk_stable(
    store: Map<Digest, NodeView>,
    more: Map<Digest, NodeView>,
    node: NodeView,
    path: Seq<u8>,
)
    requires
        within(store, more),
        walk(store, node, path).len() == path.len() + 1,
    ensures
        walk(more, node, path) == walk(store, node, path),
    decreases path.len(),
{
    if path.len() > 0 {
        let h = node.slot(path[0] as int);
        assert(steps_down(store, node, path[0]));
        assert(store.contains_key(h));
        lemma_walk_stable(store, more, store[h], path.skip(1));
    }
}

/// The parent reference of the first node has no part in a walk.
pub proof fn lemma_walk_reparented(
    store: Map<Digest, NodeView>,
    node: NodeView,
    p: Option<Digest>,
    path: Seq<u8>,
)
    ensures
        walk(store, node.with_parent(p), path) == walk(store, node, path).update(
            0,
            node.with_parent(p),
        ),
{
    let moved = node.with_parent(p);
    if path.len() > 0 && steps_down(store, node, path[0]) {
        let rest = walk(store, store[node.slot(path[0] as int)], path.skip(1));
        assert(steps_down(store, moved, path[0]));
        assert((seq![node] + rest).update(0, moved) =~= seq![moved] + rest);
    } else {
        assert(seq![node].update(0, moved) =~= seq![moved]);
    }
}

/// A walk in a store that holds at least the same nodes is at least as long.
pub proof fn lemma_walk_longer(
    store: Map<Digest, NodeView>,
    more: Map<Digest, NodeView>,
    node: NodeView,
    path: Seq<u8>,
)
    requires
        within(store, more),
    ensures
        walk(more, node, path).len() >= walk(store, node, path).len(),
    decreases path.len(),
{
    if path.len() > 0 && steps_down(store, node, path[0]) {
        let h = node.slot(path[0] as int);
        assert(store.contains_key(h));
        assert(steps_down(more, node, path[0]));
        lemma_walk_longer(store, more, store[h], path.skip(1));
    }
}

/// Rewriting the path above a node that is already the node of the trail at
/// its depth changes nothing but the parent reference of the root.
pub proof fn lemma_climb_same(
    store: Map<Digest, NodeView>,
    trail: Seq<NodeView>,
    path: Seq<u8>,
    i: int,
)
    requires
        0 <= i < trail.len(),
        i <= path.len(),
        forall|j: int|
            0 <= j < i ==> {
                &&& (#[trigger] trail[j]) is Branch
                &&& trail[j].wf()
                &&& path[j] < 16
                &&& trail[j].slot(path[j] as int) == trail[j + 1].hash()
                &&& store.contains_key(trail[j + 1].hash())
            },
    ensures
        climb(store, trail, path, i, trail[i]) == (store, trail[0].with_parent(None)),
    decreases i,
{
    if i > 0 {
        let base = trail[i - 1];
        assert(base is Branch && base.wf());
        assert(base.as_branch() == base);
        let up = base.with_slot(path[i - 1] as int, trail[i].hash());
        assert(up == base) by {
            match base {
                NodeView::Branch { slots, value, parent } => {
                    assert(slots.update(path[i - 1] as int, trail[i].hash()) =~= slots);
                },
                _ => {},
            }
        }
        assert(store_put(store, trail[i].hash(), trail[i].with_parent(Some(up.hash()))) == store);
        lemma_climb_same(store, trail, path, i - 1);
    }
}

/// Installing a node that the skeleton expects adds the node to the store, at
/// most, and changes nothing of the root but its parent reference.
pub proof fn lemma_install_expected(
    store: Map<Digest, NodeView>,
    root: NodeView,
    path: Seq<u8>,
    node: NodeView,
)
    requires
        store_wf(store),
        root.wf(),
        node.wf(),
        is_path(path),
        expected(store, root, path, node),
    ensures
        install_result(store, root, path, node) is Ok,
        store_wf(install_result(store, root, path, node)->Ok_0.0),
        within(store, install_result(store, root, path, node)->Ok_0.0),
        ({
            let top = install_result(store, root, path, node)->Ok_0.1;
            top == root || top == root.with_parent(None)
        }),
        install_result(store, root, path, node)->Ok_0.0 == (if node is Proof || on_walk(
            store,
            root,
            path,
            node.hash(),
        ) {
            store
        } else {
            store.insert(
                node.hash(),
                node.with_parent(Some(walk(store, root, path).last().hash())),
            )
        }),
{
    if !(node is Proof || on_walk(store, root, path, node.hash())) {
        let trail = walk(store, root, path);
        let d = trail.len() - 1;
        let last = trail.last();
        let h = node.hash();
        lemma_walk(store, root, path);
        lemma_walk_nodes(store, root, path);
        assert(last.wf());
        let up = last.as_branch().with_slot(path[d] as int, h);
        assert(up == last) by {
            match last {
                NodeView::Branch { slots, value, parent } => {
                    assert(slots.update(path[d] as int, h) =~= slots);
                },
                _ => {},
            }
        }
        let more = store_put(store, h, node.with_parent(Some(up.hash())));
        assert(more == store.insert(h, node.with_parent(Some(up.hash()))));
        assert forall|j: int| 0 <= j < d implies {
            &&& (#[trigger] trail[j]) is Branch
            &&& trail[j].wf()
            &&& path[j] < 16
            &&& trail[j].slot(path[j] as int) == trail[j + 1].hash()
            &&& more.contains_key(trail[j + 1].hash())
        } by {
            assert(steps_down(store, trail[j], path[j]));
            assert(trail[j + 1] == store[trail[j].slot(path[j] as int)]);
            assert(store.contains_key(trail[j].slot(path[j] as int)));
        }
        lemma_climb_same(more, trail, path, d);
        assert(climb(store, trail, path, d + 1, node) == climb(more, trail, path, d, up));
        assert(store_wf(more)) by {
            assert forall|k: Digest| #[trigger] more.contains_key(k) implies k != null_hash()
                && more[k].hash() == k && !(more[k] is Proof) && more[k].wf() by {
                if k != h {
                    assert(store.contains_key(k));
                }
            }
        }
    }
}

/// Where the descent reaches the end of a path, it still does so after a
/// node that the skeleton expects is installed, and the node at the end has
/// the hash that it had.
pub proof fn lemma_install_keeps_hash(
    store: Map<Digest, NodeView>,
    root: NodeView,
    path: Seq<u8>,
    node: NodeView,
    at: Seq<u8>,
)
    requires
        store_wf(store),
        root.wf(),
        node.wf(),
        is_path(path),
        expected(store, root, path, node),
        node_at(store, root, at) is Some,
    ensures
        ({
            let after = install_result(store, root, path, node)->Ok_0;
            &&& node_at(after.0, after.1, at) is Some
            &&& node_at(after.0, after.1, at)->Some_0.hash() == node_at(
                store,
                root,
                at,
            )->Some_0.hash()
        }),
{
    lemma_install_expected(store, root, path, node);
    let after = install_result(store, root, path, node)->Ok_0;
    lemma_walk(store, root, at);
    lemma_walk_stable(store, after.0, root, at);
    lemma_walk_reparented(after.0, root, None, at);
}

/// Walks down `path` from `root` and returns the nodes met, `root` first.
pub fn descend(db: &TrieDB, root: &Node, path: &Nibbles) -> (trail: Vec<Node>)
    requires
        db.wf(),
        is_path(path@),
    ensures
        views(trail@) == walk(db@, root@, path@),
{
    let mut trail: Vec<Node> = Vec::new();
    trail.push(root.clone());
    let mut i: usize = 0;
    let mut going: bool = true;
    assert(path@.skip(0) =~= path@);
    assert(views(trail@).drop_last() + walk(db@, root@, path@) =~= walk(db@, root@, path@));
    while going && i < path.len()
        invariant
            db.wf(),
            is_path(path@),
            i <= path@.len(),
            trail@.len() == i + 1,
            walk(db@, root@, path@) == views(trail@).drop_last() + walk(
                db@,
                trail@[i as int]@,
                path@.skip(i as int),
            ),
            !going ==> walk(db@, trail@[i as int]@, path@.skip(i as int)) == seq![
                trail@[i as int]@,
            ],
        decreases (path@.len() - i) * 2 + (if going { 1int } else { 0int }),
    {
        let digit: u8 = path[i];
        let ghost rest = path@.skip(i as int);
        let ghost cur = trail@[i as int]@;
        assert(rest[0] == digit);
        let h = trail[i].slot(digit);
        if !trail[i].is_branch() || h.is_null() {
            going = false;
        } else {
            match db.get(h) {
                Ok(child) => {
                    let ghost before = views(trail@);
                    trail.push(child);
                    proof {
                        assert(rest.skip(1) =~= path@.skip(i + 1));
                        assert(views(trail@).drop_last() =~= before.drop_last() + seq![cur]);
                        assert(walk(db@, root@, path@) =~= views(trail@).drop_last() + walk(
                            db@,
                            trail@[i + 1]@,
                            path@.skip(i + 1),
                        ));
                    }
                    i += 1;
                },
                Err(_) => {
                    going = false;
                },
            }
        }
    }
    proof {
        assert(walk(db@, trail@[i as int]@, path@.skip(i as int)) =~= seq![trail@[i as int]@]);
        assert(views(trail@) =~= views(trail@).drop_last() + seq![trail@[i as int]@]);
    }
    trail
}

/// Walks down `path` from `root` and returns the nodes met, `root` first. A
/// walk that ends at a hash that the store does not hold is a storage miss.
pub fn descend_held(db: &TrieDB, root: &Node, path: &Nibbles) -> (r: Result<Vec<Node>, Error>)
    requires
        db.wf(),
        is_path(path@),
    ensures
        match lookup(db@, root@, path@) {
            Ok(v) => r is Ok && views(r->Ok_0@) == walk(db@, root@, path@),
            Err(e) => r is Err && r->Err_0 == e,
        },
{
    let trail = descend(db, root, path);
    proof {
        lemma_walk(db@, root@, path@);
    }
    let d: usize = trail.len() - 1;
    assert(trail@[d as int]@ == views(trail@).last());
    if trail[d].is_proof() {
        Err(Error::StorageMiss)
    } else if d < path.len() && trail[d].is_branch() && !trail[d].slot(path[d]).is_null() {
        Err(Error::StorageMiss)
    } else {
        Ok(trail)
    }
}

/// Rewrites the path above the new node `node` at depth `start` and returns
/// the new root.
pub fn rewrite_up(
    db: &mut TrieDB,
    trail: &Vec<Node>,
    path: &Nibbles,
    start: usize,
    node: Node,
) -> (root: Node)
    requires
        old(db).wf(),
        is_path(path@),
        start <= path@.len(),
        !(node@ is Proof),
        forall|j: int| 0 <= j < trail@.len() ==> !(#[trigger] trail@[j]@ is Proof),
    ensures
        final(db).wf(),
        (final(db)@, root@) == climb(old(db)@, views(trail@), path@, start as int, node@),
        final(db).grown_from(*old(db)),
{
    let ghost store0 = db@;
    proof {
        db.lemma_grown_same();
    }
    let mut cur = node;
    // The hash of `cur`, made once for the slot of its parent and for the store.
    let mut h = cur.hash();
    let mut i: usize = start;
    while i > 0
        invariant
            db.wf(),
            is_path(path@),
            i <= start <= path@.len(),
            !(cur@ is Proof),
            h == cur@.hash(),
            db.grown_from(*old(db)),
            forall|j: int| 0 <= j < trail@.len() ==> !(#[trigger] trail@[j]@ is Proof),
            climb(db@, views(trail@), path@, i as int, cur@) == climb(
                store0,
                views(trail@),
                path@,
                start as int,
                node@,
            ),
        decreases i,
    {
        let base = if i - 1 < trail.len() {
            assert(views(trail@)[i - 1] == trail@[i - 1]@);
            trail[i - 1].clone().as_branch()
        } else {
            Node::empty()
        };
        let up = base.with_slot(path[i - 1], h);
        let parent = up.hash();
        let child = cur.with_parent(Some(parent));
        if !h.is_null() {
            let ghost mid = *db;
            db.put(h, child);
            proof {
                db.lemma_grown_on(mid, *old(db));
            }
        }
        cur = up;
        h = parent;
        i -= 1;
    }
    cur.with_parent(None)
}

/// Reads the value at `path`.
pub fn get_at(db: &TrieDB, root: &Node, path: &Nibbles) -> (r: Result<Option<Vec<u8>>, Error>)
    requires
        db.wf(),
        is_path(path@),
    ensures
        match lookup(db@, root@, path@) {
            Ok(v) => r is Ok && option_view(r->Ok_0) == v,
            Err(e) => r == Err::<Option<Vec<u8>>, Error>(e),
        },
{
    let trail = descend(db, root, path);
    proof {
        lemma_walk(db@, root@, path@);
    }
    let d: usize = trail.len() - 1;
    let last = &trail[d];
    assert(last@ == views(trail@).last());
    if last.is_proof() {
        Err(Error::StorageMiss)
    } else if d == path.len() {
        Ok(last.stored())
    } else if last.is_branch() && !last.slot(path[d]).is_null() {
        Err(Error::StorageMiss)
    } else {
        Ok(None)
    }
}

/// Writes `value` at `path` and returns the new root. The store keeps every
/// node that it held. On a storage miss the store is unchanged.
pub fn put_at(db: &mut TrieDB, root: &Node, path: &Nibbles, value: Vec<u8>) -> (r: Result<
    Node,
    Error,
>)
    requires
        old(db).wf(),
        is_path(path@),
    ensures
        final(db).wf(),
        match put_result(old(db)@, root@, path@, value@) {
            Ok((store, node)) => r is Ok && r->Ok_0@ == node && final(db)@ == store,
            Err(e) => r == Err::<Node, Error>(e) && final(db)@ == old(db)@,
        },
        root@.is_root() && r is Ok ==> r->Ok_0@.is_root(),
        within(old(db)@, final(db)@),
        final(db).grown_from(*old(db)),
{
    let trail = descend(db, root, path);
    proof {
        db.lemma_grown_same();
        lemma_walk(db@, root@, path@);
        lemma_walk_nodes(db@, root@, path@);
        if put_result(db@, root@, path@, value@) is Ok {
            lemma_put_grows(db@, root@, path@, value@);
            if root@.is_root() {
                lemma_put_root(db@, root@, path@, value@);
            }
        }
    }
    let d: usize = trail.len() - 1;
    assert(trail@[d as int]@ == views(trail@).last());
    assert(trail@[0]@ == views(trail@)[0]);
    if trail[d].is_proof() {
        return Err(Error::StorageMiss);
    }
    assert forall|j: int| 0 <= j < trail@.len() implies !(#[trigger] trail@[j]@ is Proof) by {
        assert(trail@[j]@ == views(trail@)[j]);
        if j == 0 && d > 0 {
            assert(steps_down(db@, views(trail@)[0], path@[0]));
        }
    }
    if d == path.len() {
        let node = trail[d].clone().with_value(value);
        Ok(rewrite_up(db, &trail, path, d, node))
    } else if trail[d].is_branch() && !trail[d].slot(path[d]).is_null() {
        Err(Error::StorageMiss)
    } else {
        let node = Node::LeafNode { value, parent: Digest::null() };
        Ok(rewrite_up(db, &trail, path, path.len(), node))
    }
}

/// Installs `node` on `path` and returns the root that results. The store
/// keeps every node that it held. Where the node is none of the nodes on the
/// path the store is unchanged.
pub fn install_at(db: &mut TrieDB, root: Node, path: &Nibbles, node: Node) -> (r: Result<
    Node,
    Error,
>)
    requires
        old(db).wf(),
        is_path(path@),
    ensures
        final(db).wf(),
        match install_result(old(db)@, root@, path@, node@) {
            Ok((store, top)) => r is Ok && r->Ok_0@ == top && final(db)@ == store,
            Err(e) => r == Err::<Node, Error>(e) && final(db)@ == old(db)@,
        },
        root@.is_root() && r is Ok ==> r->Ok_0@.is_root(),
        within(old(db)@, final(db)@),
        final(db).grown_from(*old(db)),
{
    proof {
        db.lemma_grown_same();
        if install_result(db@, root@, path@, node@) is Ok {
            lemma_install_grows(db@, root@, path@, node@);
            if root@.is_root() {
                lemma_install_root(db@, root@, path@, node@);
            }
        }
    }
    let h = node.hash();
    let trail = descend(db, &root, path);
    proof {
        lemma_walk(db@, root@, path@);
        lemma_walk_nodes(db@, root@, path@);
    }
    let d: usize = trail.len() - 1;
    assert(trail@[d as int]@ == views(trail@).last());
    assert(trail@[0]@ == views(trail@)[0]);
    // Has the walk gone through a slot that names the node?
    let mut j: usize = 0;
    while j < d
        invariant
            j <= d,
            d == trail@.len() - 1,
            d <= path@.len(),
            is_path(path@),
            db.wf(),
            db@ == old(db)@,
            db.grown_from(*old(db)),
            h == node@.hash(),
            views(trail@) == walk(db@, root@, path@),
            forall|k: int| 0 <= k < j ==> (#[trigger] views(trail@)[k]).slot(path@[k] as int) != h,
        decreases d - j,
    {
        assert(views(trail@)[j as int] == trail@[j as int]@);
        if trail[j].slot(path[j]) == h {
            assert(on_walk(db@, root@, path@, h));
            return Ok(root);
        }
        j += 1;
    }
    assert(!on_walk(db@, root@, path@, h));
    if d < path.len() && trail[d].is_branch() && !h.is_null() && trail[d].slot(path[d]) == h {
        if node.is_proof() {
            return Ok(root);
        }
        assert forall|j: int| 0 <= j < trail@.len() implies !(#[trigger] trail@[j]@ is Proof) by {
            assert(trail@[j]@ == views(trail@)[j]);
            if j == 0 && d > 0 {
                assert(steps_down(db@, views(trail@)[0], path@[0]));
            }
        }
        Ok(rewrite_up(db, &trail, path, d + 1, node))
    } else {
        Err(Error::HashMismatch)
    }
}

/// The boundary path and the root of the stray trie of a write at `path`.
pub fn stray_trie_root(db: &TrieDB, root: &Node, path: &Nibbles) -> (r: (Nibbles, Node))
    requires
        db.wf(),
        is_path(path@),
    ensures
        r.0@ == stray_boundary(db@, root@, path@),
        r.1@ == stray_root(db@, root@, path@),
        is_path(r.0@),
{
    proof {
        lemma_boundary(db@, root@, path@);
    }
    let trail = descend(db, root, path);
    proof {
        lemma_walk(db@, root@, path@);
    }
    let d: usize = trail.len() - 1;
    assert(trail@[d as int]@ == views(trail@)[d as int]);
    let b: usize = if d > 0 && (d == path.len() || !trail[d].is_branch()) {
        d - 1
    } else {
        d
    };
    let mut boundary: Vec<u8> = Vec::new();
    let mut i: usize = 0;
    while i < b
        invariant
            i <= b <= path@.len(),
            boundary@ == path@.take(i as int),
        decreases b - i,
    {
        boundary.push(path[i]);
        i += 1;
        assert(boundary@ =~= path@.take(i as int));
    }
    assert(trail@[b as int]@ == views(trail@)[b as int]);
    (boundary, trail[b].clone())
}

/// The node at the end of `path`, where the descent reaches it.
pub fn find_node(db: &TrieDB, root: &Node, path: &Nibbles) -> (r: Option<Node>)
    requires
        db.wf(),
        is_path(path@),
    ensures
        match node_at(db@, root@, path@) {
            Some(n) => r is Some && r->Some_0@ == n,
            None => r is None,
        },
{
    let trail = descend(db, root, path);
    proof {
        lemma_walk(db@, root@, path@);
    }
    let d: usize = trail.len() - 1;
    assert(trail@[d as int]@ == views(trail@).last());
    if d == path.len() {
        Some(trail[d].clone())
    } else {
        None
    }
}

} // verus!
