//! Why splitting a node at the end of a descent leaves a well-formed trie
//! with one leaf more.

use crate::arena::{free_slots, lemma_free_slots_same};
use crate::bits::{
    key_bit, lemma_prefix_shorter, lemma_shared_prefix, lemma_shared_prefix_at_least,
    shared_prefix_len,
};
use crate::descent::{
    descent_step, entry, is_descent, lemma_descent_wf, level_len, level_prefix, stops_at,
};
use crate::expiry::{
    caches_follow, lemma_descent_cached, lemma_propagated_follows, path_cached, path_of_inner,
    propagated, with_child_expiry,
};
use crate::nodes::{bit_index, AnyNode, InnerNode, LeafNode, NodeHandle};
use crate::tree::{child_prefix, in_region, lemma_subtree_frame, subtree_leaves, subtree_wf};
use vstd::prelude::*;

verus! {

/// The inner node that takes the place of a node when a leaf is split off:
/// it branches at the first bit in which the two keys differ, with the new
/// leaf under the child of its own bit and the old node under the other.
pub open spec fn split_node(
    moved: AnyNode,
    leaf: LeafNode,
    leaf_handle: NodeHandle,
    moved_handle: NodeHandle,
) -> InnerNode {
    let len = shared_prefix_len(moved.spec_key().unwrap(), leaf.key);
    let moved_expiry = moved.spec_earliest_expiry() as u64;
    let leaf_expiry = leaf.spec_expiry() as u64;
    if key_bit(leaf.key, len) {
        InnerNode {
            prefix_len: len as u32,
            key: leaf.key,
            children: [moved_handle, leaf_handle],
            child_earliest_expiry: [moved_expiry, leaf_expiry],
        }
    } else {
        InnerNode {
            prefix_len: len as u32,
            key: leaf.key,
            children: [leaf_handle, moved_handle],
            child_earliest_expiry: [leaf_expiry, moved_expiry],
        }
    }
}

/// The two new slots are distinct slots that held no live node.
pub open spec fn fresh_slots(
    nodes: Seq<AnyNode>,
    leaf_handle: NodeHandle,
    moved_handle: NodeHandle,
) -> bool {
    &&& leaf_handle < nodes.len()
    &&& moved_handle < nodes.len()
    &&& leaf_handle != moved_handle
    &&& !nodes[leaf_handle as int].is_live()
    &&& !nodes[moved_handle as int].is_live()
}

/// The arena with the new leaf and the node of `stop` in two new slots.
pub open spec fn moved_out(
    nodes: Seq<AnyNode>,
    stop: NodeHandle,
    leaf: LeafNode,
    leaf_handle: NodeHandle,
    moved_handle: NodeHandle,
) -> Seq<AnyNode> {
    nodes.update(leaf_handle as int, AnyNode::Leaf(leaf)).update(
        moved_handle as int,
        nodes[stop as int],
    )
}

/// The arena after the split itself, before any expiry is carried up.
pub open spec fn split_written(
    nodes: Seq<AnyNode>,
    stop: NodeHandle,
    leaf: LeafNode,
    leaf_handle: NodeHandle,
    moved_handle: NodeHandle,
) -> Seq<AnyNode> {
    moved_out(nodes, stop, leaf, leaf_handle, moved_handle).update(
        stop as int,
        AnyNode::Inner(split_node(nodes[stop as int], leaf, leaf_handle, moved_handle)),
    )
}

/// The arena after the split and after the new leaf's expiry, if it is the
/// earlier one, has been carried up the path.
pub open spec fn split_result(
    nodes: Seq<AnyNode>,
    path: Seq<(NodeHandle, bool)>,
    stop: NodeHandle,
    leaf: LeafNode,
    leaf_handle: NodeHandle,
    moved_handle: NodeHandle,
) -> Seq<AnyNode> {
    let written = split_written(nodes, stop, leaf, leaf_handle, moved_handle);
    if leaf.spec_expiry() < nodes[stop as int].spec_earliest_expiry() {
        propagated(
            written,
            path,
            nodes[stop as int].spec_earliest_expiry() as u64,
            leaf.spec_expiry() as u64,
        )
    } else {
        written
    }
}

/// Each slot that differs between the two arenas is the slot `stop`, one of
/// the two new slots, or an inner node whose prefix `key` shares and which
/// is still an inner node.
pub open spec fn changed_on_descent(
    nodes: Seq<AnyNode>,
    after: Seq<AnyNode>,
    stop: NodeHandle,
    leaf_handle: NodeHandle,
    moved_handle: NodeHandle,
    key: u128,
) -> bool {
    forall|x: int|
        0 <= x < nodes.len() && #[trigger] after[x] != nodes[x] ==> {
            ||| x == stop
            ||| x == leaf_handle
            ||| x == moved_handle
            ||| (nodes[x] matches AnyNode::Inner(inner) && shared_prefix_len(inner.key, key)
                >= inner.prefix_len && after[x] is Inner)
        }
}

/// What is known of the arena after a leaf was split off at the end of a
/// descent: the slot `stop` holds the splitting node, the two new slots
/// hold the leaf and the node that was at `stop`, the nodes of the path
/// have their caches brought up to date, and nothing else has changed.
pub open spec fn split_done(
    nodes: Seq<AnyNode>,
    after: Seq<AnyNode>,
    path: Seq<(NodeHandle, bool)>,
    stop: NodeHandle,
    leaf: LeafNode,
    leaf_handle: NodeHandle,
    moved_handle: NodeHandle,
) -> bool {
    &&& after.len() == nodes.len()
    &&& leaf_handle < nodes.len()
    &&& moved_handle < nodes.len()
    &&& leaf_handle != moved_handle
    &&& !nodes[leaf_handle as int].is_live()
    &&& !nodes[moved_handle as int].is_live()
    &&& after[leaf_handle as int] == AnyNode::Leaf(leaf)
    &&& after[moved_handle as int] == nodes[stop as int]
    &&& after[stop as int] == AnyNode::Inner(
        split_node(nodes[stop as int], leaf, leaf_handle, moved_handle),
    )
    &&& changed_on_descent(nodes, after, stop, leaf_handle, moved_handle, leaf.key)
    &&& caches_follow(nodes, after, path, stop)
}

/// After the split the nodes of the path are still inner nodes.
pub proof fn lemma_written_path(
    nodes: Seq<AnyNode>,
    path: Seq<(NodeHandle, bool)>,
    stop: NodeHandle,
    leaf: LeafNode,
    leaf_handle: NodeHandle,
    moved_handle: NodeHandle,
)
    requires
        subtree_wf(nodes, entry(path, stop, 0), 0, 0),
        is_descent(nodes, path, stop, leaf.key),
        stops_at(nodes, stop, leaf.key),
        fresh_slots(nodes, leaf_handle, moved_handle),
    ensures
        path_of_inner(split_written(nodes, stop, leaf, leaf_handle, moved_handle), path),
{
    lemma_descent_cached(nodes, path, stop, leaf.key);
    let written = split_written(nodes, stop, leaf, leaf_handle, moved_handle);
    assert forall|j: int| 0 <= j < path.len() implies (#[trigger] path[j]).0 < written.len()
        && written[path[j].0 as int] is Inner by {
    }
}

/// Replacing a cached expiry by itself leaves the node as it is.
proof fn lemma_same_expiry(inner: InnerNode, bit: bool)
    ensures
        with_child_expiry(inner, bit, inner.child_earliest_expiry[bit_index(bit)]) == inner,
{
    let same = with_child_expiry(inner, bit, inner.child_earliest_expiry[bit_index(bit)]);
    assert(same.child_earliest_expiry =~= inner.child_earliest_expiry);
}

/// Where the new leaf does not expire before the node that it is split
/// from, the caches of the path are up to date as they are.
proof fn lemma_split_keeps_caches(
    nodes: Seq<AnyNode>,
    path: Seq<(NodeHandle, bool)>,
    stop: NodeHandle,
    leaf: LeafNode,
    leaf_handle: NodeHandle,
    moved_handle: NodeHandle,
)
    requires
        path_cached(nodes, path, stop),
        fresh_slots(nodes, leaf_handle, moved_handle),
        nodes[stop as int].is_live(),
        nodes[stop as int] matches AnyNode::Leaf(l) ==> l.expiry_fits(),
        leaf.expiry_fits(),
        leaf.spec_expiry() >= nodes[stop as int].spec_earliest_expiry(),
    ensures
        caches_follow(
            nodes,
            split_written(nodes, stop, leaf, leaf_handle, moved_handle),
            path,
            stop,
        ),
{
    let written = split_written(nodes, stop, leaf, leaf_handle, moved_handle);
    assert forall|j: int| 0 <= j < path.len() implies {
        &&& (#[trigger] written[path[j].0 as int]) matches AnyNode::Inner(changed)
        &&& changed == with_child_expiry(
            nodes[path[j].0 as int]->Inner_0,
            path[j].1,
            changed.child_earliest_expiry[bit_index(path[j].1)],
        )
        &&& changed.child_earliest_expiry[bit_index(path[j].1)] == written[entry(
            path,
            stop,
            j + 1,
        ) as int].spec_earliest_expiry()
    } by {
        let here = path[j];
        lemma_same_expiry(nodes[here.0 as int]->Inner_0, here.1);
    }
}

/// The result of the split is what `split_done` describes.
pub proof fn lemma_split_done(
    nodes: Seq<AnyNode>,
    path: Seq<(NodeHandle, bool)>,
    stop: NodeHandle,
    leaf: LeafNode,
    leaf_handle: NodeHandle,
    moved_handle: NodeHandle,
)
    requires
        subtree_wf(nodes, entry(path, stop, 0), 0, 0),
        is_descent(nodes, path, stop, leaf.key),
        stops_at(nodes, stop, leaf.key),
        fresh_slots(nodes, leaf_handle, moved_handle),
        leaf.expiry_fits(),
    ensures
        split_done(
            nodes,
            split_result(nodes, path, stop, leaf, leaf_handle, moved_handle),
            path,
            stop,
            leaf,
            leaf_handle,
            moved_handle,
        ),
{
    let key = leaf.key;
    let n = path.len() as int;
    let moved = nodes[stop as int];
    let written = split_written(nodes, stop, leaf, leaf_handle, moved_handle);
    let after = split_result(nodes, path, stop, leaf, leaf_handle, moved_handle);
    lemma_descent_cached(nodes, path, stop, key);
    lemma_descent_wf(nodes, path, stop, key, n);
    if leaf.spec_expiry() < moved.spec_earliest_expiry() {
        assert(path.take(n) =~= path);
        lemma_propagated_follows(
            nodes,
            written,
            path,
            stop,
            n,
            moved.spec_earliest_expiry() as u64,
            leaf.spec_expiry() as u64,
        );
        assert forall|x: int| 0 <= x < nodes.len() && #[trigger] after[x] != nodes[x] implies {
            ||| x == stop
            ||| x == leaf_handle
            ||| x == moved_handle
            ||| (nodes[x] matches AnyNode::Inner(inner) && shared_prefix_len(inner.key, key)
                >= inner.prefix_len && after[x] is Inner)
        } by {
            if x != stop && x != leaf_handle && x != moved_handle {
                if forall|j: int| 0 <= j < n ==> x != (#[trigger] path[j]).0 {
                } else {
                    let j = choose|j: int| 0 <= j < n && x == (#[trigger] path[j]).0;
                    assert(descent_step(nodes, path, stop, key, j));
                }
            }
        }
    } else {
        lemma_split_keeps_caches(nodes, path, stop, leaf, leaf_handle, moved_handle);
    }
}

/// The slot where the descent stops is the root of a well-formed subtree
/// after the split: the subtree that was there, and the new leaf.
proof fn lemma_split_at_stop(
    nodes: Seq<AnyNode>,
    after: Seq<AnyNode>,
    path: Seq<(NodeHandle, bool)>,
    stop: NodeHandle,
    leaf: LeafNode,
    leaf_handle: NodeHandle,
    moved_handle: NodeHandle,
)
    requires
        subtree_wf(nodes, entry(path, stop, 0), 0, 0),
        is_descent(nodes, path, stop, leaf.key),
        stops_at(nodes, stop, leaf.key),
        split_done(nodes, after, path, stop, leaf, leaf_handle, moved_handle),
        leaf.expiry_fits(),
        !subtree_leaves(nodes, stop, level_len(nodes, path, path.len() as int)).contains_key(
            leaf.key,
        ),
    ensures
        subtree_wf(
            after,
            stop,
            level_len(nodes, path, path.len() as int),
            level_prefix(nodes, path, path.len() as int),
        ),
        subtree_leaves(after, stop, level_len(nodes, path, path.len() as int)) == subtree_leaves(
            nodes,
            stop,
            level_len(nodes, path, path.len() as int),
        ).insert(leaf.key, leaf),
{
    let j = path.len() as int;
    let key = leaf.key;
    let len = level_len(nodes, path, j);
    lemma_descent_wf(nodes, path, stop, key, path.len() as int);
    let stop_len = level_len(nodes, path, path.len() as int);
    let stop_prefix = level_prefix(nodes, path, path.len() as int);
    let stop_key = nodes[stop as int].spec_key().unwrap();
    let moved = nodes[stop as int];
    let split = split_node(moved, leaf, leaf_handle, moved_handle);
    let s = shared_prefix_len(stop_key, key);
    let bit = key_bit(key, s);
    lemma_shared_prefix(stop_key, key);
    lemma_shared_prefix_at_least(stop_key, key, len);
    let below = (s + 1) as nat;
    assert(subtree_wf(after, leaf_handle, below, child_prefix(split, bit)));
    assert(subtree_leaves(after, leaf_handle, below) =~= Map::<u128, LeafNode>::empty().insert(
        key,
        leaf,
    ));
    match moved {
        AnyNode::Inner(inner) => {
            let deeper = (inner.prefix_len + 1) as nat;
            assert forall|x: int, b: bool|
                0 <= x < nodes.len() && in_region(
                    #[trigger] nodes[x],
                    deeper,
                    #[trigger] child_prefix(inner, b),
                ) implies after[x] == nodes[x] by {
                if after[x] != nodes[x] {
                    match nodes[x] {
                        AnyNode::Inner(other) => {
                            lemma_shared_prefix(other.key, key);
                            lemma_prefix_shorter(
                                other.key,
                                key,
                                shared_prefix_len(other.key, key),
                                inner.prefix_len as nat,
                            );
                            lemma_shared_prefix_at_least(
                                inner.key,
                                key,
                                inner.prefix_len as nat,
                            );
                        },
                        _ => {},
                    }
                }
            }
            lemma_subtree_frame(
                nodes,
                after,
                inner.children[0],
                deeper,
                child_prefix(inner, false),
            );
            lemma_subtree_frame(
                nodes,
                after,
                inner.children[1],
                deeper,
                child_prefix(inner, true),
            );
            assert(subtree_wf(after, moved_handle, below, child_prefix(split, !bit)));
            assert(
                subtree_leaves(after, moved_handle, below) == subtree_leaves(nodes, stop, len)
            );
        },
        AnyNode::Leaf(old_leaf) => {
            assert(subtree_wf(after, moved_handle, below, child_prefix(split, !bit)));
            assert(
                subtree_leaves(after, moved_handle, below) == subtree_leaves(nodes, stop, len)
            );
        },
        _ => {},
    }
}

/// The subtree beside the descent at step `j` is untouched by the split.
proof fn lemma_sibling_kept(
    nodes: Seq<AnyNode>,
    after: Seq<AnyNode>,
    path: Seq<(NodeHandle, bool)>,
    stop: NodeHandle,
    leaf: LeafNode,
    leaf_handle: NodeHandle,
    moved_handle: NodeHandle,
    j: int,
)
    requires
        subtree_wf(nodes, entry(path, stop, 0), 0, 0),
        is_descent(nodes, path, stop, leaf.key),
        stops_at(nodes, stop, leaf.key),
        split_done(nodes, after, path, stop, leaf, leaf_handle, moved_handle),
        0 <= j < path.len(),
    ensures
        ({
            let inner = nodes[path[j].0 as int]->Inner_0;
            let sibling = inner.children[bit_index(!path[j].1)];
            let below = (inner.prefix_len + 1) as nat;
            &&& subtree_wf(after, sibling, below, child_prefix(inner, !path[j].1))
            &&& subtree_leaves(after, sibling, below) == subtree_leaves(nodes, sibling, below)
            &&& after[sibling as int] == nodes[sibling as int]
        }),
{
    let key = leaf.key;
    let n = path.len() as int;
    lemma_descent_wf(nodes, path, stop, key, j);
    lemma_descent_wf(nodes, path, stop, key, n);
    assert(descent_step(nodes, path, stop, key, j));
    let inner = nodes[path[j].0 as int]->Inner_0;
    let bit = path[j].1;
    let below = (inner.prefix_len + 1) as nat;
    let sibling = inner.children[bit_index(!bit)];
    let stop_key = nodes[stop as int].spec_key().unwrap();
    assert(level_len(nodes, path, j + 1) <= level_len(nodes, path, n));
    assert forall|x: int|
        0 <= x < nodes.len() && in_region(
            #[trigger] nodes[x],
            below,
            child_prefix(inner, !bit),
        ) implies after[x] == nodes[x] by {
        if after[x] != nodes[x] {
            if x == stop {
                lemma_prefix_shorter(stop_key, key, level_len(nodes, path, n), below);
            } else {
                match nodes[x] {
                    AnyNode::Inner(other) => {
                        lemma_shared_prefix(other.key, key);
                        lemma_prefix_shorter(
                            other.key,
                            key,
                            shared_prefix_len(other.key, key),
                            below,
                        );
                    },
                    _ => {},
                }
            }
        }
    }
    lemma_subtree_frame(nodes, after, sibling, below, child_prefix(inner, !bit));
}

/// The subtree that the descent enters at step `j` is well formed after the
/// split, and has the new leaf besides the leaves that it had.
pub proof fn lemma_insert_below(
    nodes: Seq<AnyNode>,
    after: Seq<AnyNode>,
    path: Seq<(NodeHandle, bool)>,
    stop: NodeHandle,
    leaf: LeafNode,
    leaf_handle: NodeHandle,
    moved_handle: NodeHandle,
    j: int,
)
    requires
        subtree_wf(nodes, entry(path, stop, 0), 0, 0),
        is_descent(nodes, path, stop, leaf.key),
        stops_at(nodes, stop, leaf.key),
        split_done(nodes, after, path, stop, leaf, leaf_handle, moved_handle),
        leaf.expiry_fits(),
        0 <= j <= path.len(),
        !subtree_leaves(nodes, entry(path, stop, j), level_len(nodes, path, j)).contains_key(
            leaf.key,
        ),
    ensures
        subtree_wf(
            after,
            entry(path, stop, j),
            level_len(nodes, path, j),
            level_prefix(nodes, path, j),
        ),
        subtree_leaves(after, entry(path, stop, j), level_len(nodes, path, j)) == subtree_leaves(
            nodes,
            entry(path, stop, j),
            level_len(nodes, path, j),
        ).insert(leaf.key, leaf),
    decreases path.len() - j,
{
    let key = leaf.key;
    if j == path.len() {
        lemma_split_at_stop(nodes, after, path, stop, leaf, leaf_handle, moved_handle);
    } else {
        lemma_descent_wf(nodes, path, stop, key, j);
        assert(descent_step(nodes, path, stop, key, j));
        let here = path[j].0;
        let len = level_len(nodes, path, j);
        let inner = nodes[here as int]->Inner_0;
        let below = (inner.prefix_len + 1) as nat;
        let child = entry(path, stop, j + 1);
        assert(!subtree_leaves(nodes, child, below).contains_key(key)) by {
            if subtree_leaves(nodes, child, below).contains_key(key) {
                assert(subtree_leaves(nodes, here, len).contains_key(key));
            }
        }
        lemma_insert_below(nodes, after, path, stop, leaf, leaf_handle, moved_handle, j + 1);
        lemma_sibling_kept(nodes, after, path, stop, leaf, leaf_handle, moved_handle, j);
        assert(after[here as int] is Inner);
        assert(subtree_wf(after, here, len, level_prefix(nodes, path, j)));
        assert(subtree_leaves(after, here, len) =~= subtree_leaves(nodes, here, len).insert(
            key,
            leaf,
        ));
    }
}

/// What the split does to the arena: each slot that changed after the two
/// new slots were filled held a live node and holds one, so that as many
/// slots are free as before.
pub proof fn lemma_split_arena(
    nodes: Seq<AnyNode>,
    after: Seq<AnyNode>,
    path: Seq<(NodeHandle, bool)>,
    stop: NodeHandle,
    leaf: LeafNode,
    leaf_handle: NodeHandle,
    moved_handle: NodeHandle,
    bump: nat,
)
    requires
        split_done(nodes, after, path, stop, leaf, leaf_handle, moved_handle),
        stop < nodes.len(),
        nodes[stop as int].is_live(),
        bump <= nodes.len(),
    ensures
        free_slots(after, bump) == free_slots(
            moved_out(nodes, stop, leaf, leaf_handle, moved_handle),
            bump,
        ),
        forall|x: int|
            0 <= x < nodes.len() && #[trigger] after[x] != moved_out(
                nodes,
                stop,
                leaf,
                leaf_handle,
                moved_handle,
            )[x] ==> after[x].is_live() && moved_out(
                nodes,
                stop,
                leaf,
                leaf_handle,
                moved_handle,
            )[x].is_live(),
{
    let second = moved_out(nodes, stop, leaf, leaf_handle, moved_handle);
    lemma_free_slots_same(second, after, bump);
}

} // verus!
