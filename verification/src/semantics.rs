//! The trie as a map from paths to values: what a write does to the values
//! that a descent finds, as long as no two different nodes meet in one hash.

use vstd::prelude::*;
use crate::db::{store_put, store_wf};
use crate::descent::{
    climb, lemma_climb_grows, lemma_walk, lemma_walk_nodes, lookup, put_result, steps_down, walk,
    within,
};
use crate::digest::{null_hash, Digest};
use crate::error::Error;
use crate::nibbles::is_path;
use crate::node::{empty_branch, NodeView};

verus! {

/// Whether two nodes hold the same, whatever their parent references are.
pub open spec fn same_content(a: NodeView, b: NodeView) -> bool {
    a.with_parent(None) == b.with_parent(None)
}

/// The node that a rewrite starts from at depth `j`: the node of the trail
/// (a leaf as the branch that it becomes), or a new branch below the trail.
pub open spec fn base_at(trail: Seq<NodeView>, j: int) -> NodeView {
    if j < trail.len() {
        trail[j].as_branch()
    } else {
        empty_branch()
    }
}

/// Whether a rewrite meets no collision: the hash of every node that it makes
/// below the root is not the null hash, and where the store already holds a
/// node under that hash, that node has the same content.
pub open spec fn climbs_cleanly(
    store: Map<Digest, NodeView>,
    trail: Seq<NodeView>,
    path: Seq<u8>,
    i: int,
    cur: NodeView,
) -> bool
    decreases i,
{
    i <= 0 || {
        let up = base_at(trail, i - 1).with_slot(path[i - 1] as int, cur.hash());
        &&& cur.hash() != null_hash()
        &&& store.contains_key(cur.hash()) ==> same_content(store[cur.hash()], cur)
        &&& climbs_cleanly(
            store_put(store, cur.hash(), cur.with_parent(Some(up.hash()))),
            trail,
            path,
            i - 1,
            up,
        )
    }
}

/// Whether a write meets no collision on its way up.
pub open spec fn writes_cleanly(
    store: Map<Digest, NodeView>,
    root: NodeView,
    path: Seq<u8>,
    value: Seq<u8>,
) -> bool {
    let trail = walk(store, root, path);
    let d = trail.len() - 1;
    if d == path.len() {
        climbs_cleanly(store, trail, path, d, trail.last().with_value(value))
    } else {
        climbs_cleanly(
            store,
            trail,
            path,
            path.len() as int,
            NodeView::Leaf { value, parent: null_hash() },
        )
    }
}

/// Whether two paths have the same first `n` digits.
pub open spec fn agree(a: Seq<u8>, b: Seq<u8>, n: int) -> bool {
    0 <= n <= a.len() && n <= b.len() && a.take(n) == b.take(n)
}

/// A lookup from a node that the descent cannot go below.
pub proof fn lemma_lookup_here(store: Map<Digest, NodeView>, node: NodeView, path: Seq<u8>)
    requires
        path.len() == 0 || !steps_down(store, node, path[0]),
    ensures
        lookup(store, node, path) == (if node is Proof {
            Err::<Option<Seq<u8>>, Error>(Error::StorageMiss)
        } else if path.len() == 0 {
            Ok(node.stored())
        } else if node is Branch && node.slot(path[0] as int) != null_hash() {
            Err(Error::StorageMiss)
        } else {
            Ok(None)
        }),
{
    assert(walk(store, node, path) =~= seq![node]);
}

/// A lookup through a node that the descent goes below is the lookup from
/// its child along the rest of the path.
pub proof fn lemma_lookup_step(store: Map<Digest, NodeView>, node: NodeView, path: Seq<u8>)
    requires
        path.len() > 0,
        steps_down(store, node, path[0]),
    ensures
        lookup(store, node, path) == lookup(
            store,
            store[node.slot(path[0] as int)],
            path.skip(1),
        ),
{
    let child = store[node.slot(path[0] as int)];
    let rest = path.skip(1);
    let below = walk(store, child, rest);
    let trail = walk(store, node, path);
    lemma_walk(store, child, rest);
    assert(trail =~= seq![node] + below);
    assert(trail.last() == below.last());
    if below.len() - 1 < rest.len() {
        assert(rest[below.len() - 1] == path[trail.len() - 1]);
    }
}

/// The parent reference of the node that a lookup starts from has no part in it.
pub proof fn lemma_lookup_reparented(
    store: Map<Digest, NodeView>,
    node: NodeView,
    p: Option<Digest>,
    path: Seq<u8>,
)
    ensures
        lookup(store, node.with_parent(p), path) == lookup(store, node, path),
{
    let moved = node.with_parent(p);
    if path.len() > 0 && steps_down(store, node, path[0]) {
        assert(steps_down(store, moved, path[0]));
        lemma_lookup_step(store, node, path);
        lemma_lookup_step(store, moved, path);
    } else {
        lemma_lookup_here(store, node, path);
        lemma_lookup_here(store, moved, path);
    }
}

/// Nodes with the same content answer every lookup alike.
pub proof fn lemma_lookup_same_content(
    store: Map<Digest, NodeView>,
    a: NodeView,
    b: NodeView,
    path: Seq<u8>,
)
    requires
        same_content(a, b),
    ensures
        lookup(store, a, path) == lookup(store, b, path),
{
    lemma_lookup_reparented(store, a, None, path);
    lemma_lookup_reparented(store, b, None, path);
}

/// Setting one slot of a branch changes no lookup that does not go through
/// that slot.
pub proof fn lemma_lookup_other_slot(
    store: Map<Digest, NodeView>,
    base: NodeView,
    digit: u8,
    child: Digest,
    rest: Seq<u8>,
)
    requires
        base is Branch,
        base.wf(),
        digit < 16,
        is_path(rest),
        rest.len() == 0 || rest[0] != digit,
    ensures
        lookup(store, base.with_slot(digit as int, child), rest) == lookup(store, base, rest),
{
    let set = base.with_slot(digit as int, child);
    if rest.len() > 0 {
        assert(rest[0] < 16);
        assert(set.slot(rest[0] as int) == base.slot(rest[0] as int));
    }
    if rest.len() > 0 && steps_down(store, base, rest[0]) {
        lemma_lookup_step(store, base, rest);
        lemma_lookup_step(store, set, rest);
    } else {
        lemma_lookup_here(store, base, rest);
        lemma_lookup_here(store, set, rest);
    }
}

/// A lookup that finds its answer finds the same answer in any store that
/// holds at least the same nodes.
pub proof fn lemma_lookup_stable(
    store: Map<Digest, NodeView>,
    more: Map<Digest, NodeView>,
    node: NodeView,
    path: Seq<u8>,
)
    requires
        within(store, more),
        lookup(store, node, path) is Ok,
    ensures
        lookup(more, node, path) == lookup(store, node, path),
    decreases path.len(),
{
    if path.len() > 0 && steps_down(store, node, path[0]) {
        let h = node.slot(path[0] as int);
        assert(store.contains_key(h));
        assert(steps_down(more, node, path[0]));
        lemma_lookup_step(store, node, path);
        lemma_lookup_step(more, node, path);
        lemma_lookup_stable(store, more, store[h], path.skip(1));
    } else {
        lemma_lookup_here(store, node, path);
        lemma_lookup_here(more, node, path);
    }
}

/// A lookup along a path that shares its first `c` digits with another path
/// goes through the node that the walk along that other path has at depth `c`.
pub proof fn lemma_lookup_common(
    store: Map<Digest, NodeView>,
    root: NodeView,
    path: Seq<u8>,
    q: Seq<u8>,
    c: int,
)
    requires
        agree(q, path, c),
        c < walk(store, root, path).len(),
    ensures
        lookup(store, root, q) == lookup(store, walk(store, root, path)[c], q.skip(c)),
    decreases c,
{
    lemma_walk(store, root, path);
    if c == 0 {
        assert(q.skip(0) =~= q);
    } else {
        let child = store[root.slot(path[0] as int)];
        assert(walk(store, root, path) =~= seq![root] + walk(store, child, path.skip(1)));
        assert(q.take(c)[0] == path.take(c)[0]);
        assert(q[0] == path[0]);
        lemma_lookup_step(store, root, q);
        assert(q.skip(1).take(c - 1) =~= q.take(c).skip(1));
        assert(path.skip(1).take(c - 1) =~= path.take(c).skip(1));
        lemma_lookup_common(store, child, path.skip(1), q.skip(1), c - 1);
        assert(q.skip(1).skip(c - 1) =~= q.skip(c));
    }
}

/// After a clean rewrite, a lookup along a path that shares the rewritten
/// digits goes through the node that the rewrite started from.
pub proof fn lemma_climb_on_path(
    store: Map<Digest, NodeView>,
    trail: Seq<NodeView>,
    path: Seq<u8>,
    i: int,
    cur: NodeView,
    q: Seq<u8>,
)
    requires
        is_path(path),
        forall|j: int| 0 <= j < trail.len() ==> !(#[trigger] trail[j] is Proof) && trail[j].wf(),
        climbs_cleanly(store, trail, path, i, cur),
        agree(q, path, i),
    ensures
        lookup(climb(store, trail, path, i, cur).0, climb(store, trail, path, i, cur).1, q)
            == lookup(climb(store, trail, path, i, cur).0, cur, q.skip(i)),
    decreases i,
{
    let last = climb(store, trail, path, i, cur).0;
    if i <= 0 {
        assert(q.skip(0) =~= q);
        lemma_lookup_reparented(store, cur, None, q);
    } else {
        let h = cur.hash();
        let base = base_at(trail, i - 1);
        let up = base.with_slot(path[i - 1] as int, h);
        let next = store_put(store, h, cur.with_parent(Some(up.hash())));
        assert(q.take(i - 1) =~= q.take(i).take(i - 1));
        assert(path.take(i - 1) =~= path.take(i).take(i - 1));
        lemma_climb_on_path(next, trail, path, i - 1, up, q);
        lemma_climb_grows(next, trail, path, i - 1, up);
        let rest = q.skip(i - 1);
        assert(q.take(i)[i - 1] == path.take(i)[i - 1]);
        assert(rest[0] == path[i - 1]);
        assert(base is Branch && base.wf());
        assert(up.slot(path[i - 1] as int) == h);
        assert(next.contains_key(h));
        assert(last.contains_key(h) && last[h] == next[h]);
        assert(steps_down(last, up, rest[0]));
        lemma_lookup_step(last, up, rest);
        assert(rest.skip(1) =~= q.skip(i));
        assert(same_content(next[h], cur));
        lemma_lookup_same_content(last, last[h], cur, q.skip(i));
    }
}

/// After a clean rewrite, a lookup along a path that leaves the rewritten
/// path at depth `k` goes through the node that the rewrite started from at
/// that depth.
pub proof fn lemma_climb_off_path(
    store: Map<Digest, NodeView>,
    trail: Seq<NodeView>,
    path: Seq<u8>,
    i: int,
    cur: NodeView,
    q: Seq<u8>,
    k: int,
)
    requires
        is_path(path),
        is_path(q),
        forall|j: int| 0 <= j < trail.len() ==> !(#[trigger] trail[j] is Proof) && trail[j].wf(),
        climbs_cleanly(store, trail, path, i, cur),
        0 <= k < i <= path.len(),
        agree(q, path, k),
        q.len() == k || q[k] != path[k],
    ensures
        lookup(climb(store, trail, path, i, cur).0, climb(store, trail, path, i, cur).1, q)
            == lookup(climb(store, trail, path, i, cur).0, base_at(trail, k), q.skip(k)),
    decreases i,
{
    let last = climb(store, trail, path, i, cur).0;
    let h = cur.hash();
    let base = base_at(trail, i - 1);
    let up = base.with_slot(path[i - 1] as int, h);
    let next = store_put(store, h, cur.with_parent(Some(up.hash())));
    if k < i - 1 {
        lemma_climb_off_path(next, trail, path, i - 1, up, q, k);
    } else {
        lemma_climb_on_path(next, trail, path, i - 1, up, q);
        let rest = q.skip(k);
        assert(base is Branch && base.wf());
        assert(is_path(rest)) by {
            assert forall|j: int| 0 <= j < rest.len() implies #[trigger] rest[j] < 16 by {
                assert(rest[j] == q[j + k]);
            }
        }
        if rest.len() > 0 {
            assert(rest[0] == q[k]);
        }
        lemma_lookup_other_slot(last, base, path[k], h, rest);
    }
}

/// What a clean write leaves under its own path: the value that it wrote.
pub proof fn law_get_after_put_returns_the_value(
    store: Map<Digest, NodeView>,
    root: NodeView,
    path: Seq<u8>,
    value: Seq<u8>,
)
    requires
        store_wf(store),
        root.wf(),
        is_path(path),
        put_result(store, root, path, value) is Ok,
        writes_cleanly(store, root, path, value),
    ensures
        lookup(
            put_result(store, root, path, value)->Ok_0.0,
            put_result(store, root, path, value)->Ok_0.1,
            path,
        ) == Ok::<Option<Seq<u8>>, Error>(Some(value)),
{
    let trail = walk(store, root, path);
    let d = trail.len() - 1;
    lemma_walk(store, root, path);
    lemma_walk_nodes(store, root, path);
    let after = put_result(store, root, path, value)->Ok_0;
    assert(path.take(path.len() as int) =~= path);
    let none = path.skip(path.len() as int);
    if d == path.len() {
        let cur = trail.last().with_value(value);
        lemma_climb_on_path(store, trail, path, d, cur, path);
        lemma_lookup_here(after.0, cur, none);
    } else {
        let cur = NodeView::Leaf { value, parent: null_hash() };
        lemma_climb_on_path(store, trail, path, path.len() as int, cur, path);
        lemma_lookup_here(after.0, cur, none);
    }
}

/// How many digits two paths share at their start.
pub open spec fn common(a: Seq<u8>, b: Seq<u8>) -> int
    decreases a.len(),
{
    if a.len() > 0 && b.len() > 0 && a[0] == b[0] {
        1 + common(a.skip(1), b.skip(1))
    } else {
        0
    }
}

/// Two paths agree on their common start, and not on the digit after it.
pub proof fn lemma_common(a: Seq<u8>, b: Seq<u8>)
    ensures
        agree(a, b, common(a, b)),
        common(a, b) == a.len() || common(a, b) == b.len() || a[common(a, b)] != b[common(
            a,
            b,
        )],
    decreases a.len(),
{
    if a.len() > 0 && b.len() > 0 && a[0] == b[0] {
        lemma_common(a.skip(1), b.skip(1));
        let c = common(a.skip(1), b.skip(1));
        assert(a.take(c + 1) =~= seq![a[0]] + a.skip(1).take(c));
        assert(b.take(c + 1) =~= seq![b[0]] + b.skip(1).take(c));
        if c < a.len() - 1 && c < b.len() - 1 {
            assert(a.skip(1)[c] == a[c + 1]);
            assert(b.skip(1)[c] == b[c + 1]);
        }
    } else {
        assert(a.take(0) =~= b.take(0));
    }
}

/// The value of a node has no part in a lookup that goes on below it.
pub proof fn lemma_lookup_other_value(
    store: Map<Digest, NodeView>,
    node: NodeView,
    value: Seq<u8>,
    rest: Seq<u8>,
)
    requires
        rest.len() > 0,
        !(node is Proof),
    ensures
        lookup(store, node.with_value(value), rest) == lookup(store, node, rest),
{
    let set = node.with_value(value);
    if steps_down(store, node, rest[0]) {
        assert(steps_down(store, set, rest[0]));
        lemma_lookup_step(store, node, rest);
        lemma_lookup_step(store, set, rest);
    } else {
        lemma_lookup_here(store, node, rest);
        lemma_lookup_here(store, set, rest);
    }
}

/// What a clean write leaves under every other path: the value that a lookup
/// found there before the write.
pub proof fn law_put_keeps_other_values(
    store: Map<Digest, NodeView>,
    root: NodeView,
    path: Seq<u8>,
    value: Seq<u8>,
    q: Seq<u8>,
)
    requires
        store_wf(store),
        root.wf(),
        is_path(path),
        is_path(q),
        q != path,
        put_result(store, root, path, value) is Ok,
        writes_cleanly(store, root, path, value),
        lookup(store, root, q) is Ok,
    ensures
        lookup(
            put_result(store, root, path, value)->Ok_0.0,
            put_result(store, root, path, value)->Ok_0.1,
            q,
        ) == lookup(store, root, q),
{
    let trail = walk(store, root, path);
    let d = trail.len() - 1;
    let len = path.len() as int;
    let after = put_result(store, root, path, value)->Ok_0;
    let c = common(q, path);
    lemma_walk(store, root, path);
    lemma_walk_nodes(store, root, path);
    lemma_common(q, path);
    let cur = if d == len {
        trail.last().with_value(value)
    } else {
        NodeView::Leaf { value, parent: null_hash() }
    };
    assert(after == climb(store, trail, path, len, cur));
    lemma_climb_grows(store, trail, path, len, cur);
    assert(path.take(len) =~= path);
    if c == len {
        // The other path goes on below the written one.
        if q.len() == len {
            assert(q.take(len) =~= q);
        }
        let rest = q.skip(len);
        assert(rest.len() > 0);
        lemma_climb_on_path(store, trail, path, len, cur, q);
        if d == len {
            lemma_lookup_common(store, root, path, q, len);
            lemma_lookup_other_value(after.0, trail.last(), value, rest);
            lemma_lookup_stable(store, after.0, trail.last(), rest);
        } else {
            lemma_lookup_here(after.0, cur, rest);
            lemma_off_the_end(store, root, path, q, c);
        }
    } else {
        // The other path leaves the written one at depth `c`.
        let rest = q.skip(c);
        lemma_climb_off_path(store, trail, path, len, cur, q, c);
        if c < d || (c == d && trail[d] is Branch) {
            if c < d {
                assert(steps_down(store, trail[c], path[c]));
            }
            lemma_lookup_common(store, root, path, q, c);
            lemma_lookup_stable(store, after.0, trail[c], rest);
        } else if c == d {
            lemma_lookup_common(store, root, path, q, c);
            if rest.len() > 0 {
                assert(rest[0] == q[c]);
                assert(rest[0] < 16);
            }
            lemma_lookup_here(store, trail[d], rest);
            lemma_lookup_here(after.0, base_at(trail, c), rest);
        } else {
            if rest.len() > 0 {
                assert(rest[0] == q[c]);
                assert(rest[0] < 16);
            }
            lemma_lookup_here(after.0, base_at(trail, c), rest);
            lemma_off_the_end(store, root, path, q, c);
        }
    }
}

/// A lookup that follows a path beyond the depth where the walk along that
/// path stops, and that finds its answer, finds nothing.
pub proof fn lemma_off_the_end(
    store: Map<Digest, NodeView>,
    root: NodeView,
    path: Seq<u8>,
    q: Seq<u8>,
    c: int,
)
    requires
        agree(q, path, c),
        walk(store, root, path).len() - 1 < path.len(),
        walk(store, root, path).len() - 1 < c,
        lookup(store, root, q) is Ok,
    ensures
        lookup(store, root, q) == Ok::<Option<Seq<u8>>, Error>(None),
{
    let trail = walk(store, root, path);
    let d = trail.len() - 1;
    lemma_walk(store, root, path);
    assert(q.take(d) =~= q.take(c).take(d));
    assert(path.take(d) =~= path.take(c).take(d));
    lemma_lookup_common(store, root, path, q, d);
    let rest = q.skip(d);
    assert(q.take(c)[d] == path.take(c)[d]);
    assert(rest[0] == path[d]);
    lemma_lookup_here(store, trail[d], rest);
}

} // verus!
