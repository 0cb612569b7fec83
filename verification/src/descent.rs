//! The descent for a key: the way from the root to the slot where a leaf
//! with that key is split off.

use crate::bits::{
    key_bit, key_prefix, lemma_prefix_empty, lemma_prefix_shorter, lemma_shared_prefix,
    shared_prefix_len,
};
use crate::nodes::{bit_index, AnyNode, NodeHandle};
use crate::tree::{child_prefix, subtree_leaves, subtree_wf};
use vstd::prelude::*;

verus! {

/// The handle that a path enters at step `j`: the path's own entry, or,
/// past its end, the slot where the path stops.
pub open spec fn entry(path: Seq<(NodeHandle, bool)>, stop: NodeHandle, j: int) -> NodeHandle {
    if 0 <= j < path.len() {
        path[j].0
    } else {
        stop
    }
}

/// Step `j` of a descent for `key`: an inner node whose prefix the key
/// shares, left through the child that the key's next bit names.
pub open spec fn descent_step(
    nodes: Seq<AnyNode>,
    path: Seq<(NodeHandle, bool)>,
    stop: NodeHandle,
    key: u128,
    j: int,
) -> bool {
    &&& path[j].0 < nodes.len()
    &&& nodes[path[j].0 as int] matches AnyNode::Inner(inner)
    &&& inner.prefix_len < 128
    &&& shared_prefix_len(inner.key, key) >= inner.prefix_len
    &&& path[j].1 == key_bit(key, inner.prefix_len as nat)
    &&& inner.children[bit_index(path[j].1)] == entry(path, stop, j + 1)
}

/// `path` is a descent for `key` that ends in front of the slot `stop`.
pub open spec fn is_descent(
    nodes: Seq<AnyNode>,
    path: Seq<(NodeHandle, bool)>,
    stop: NodeHandle,
    key: u128,
) -> bool {
    forall|j: int| 0 <= j < path.len() ==> #[trigger] descent_step(nodes, path, stop, key, j)
}

/// A descent for `key` goes no further than this slot: it holds a leaf, or
/// an inner node whose prefix the key does not share.
pub open spec fn stops_at(nodes: Seq<AnyNode>, stop: NodeHandle, key: u128) -> bool {
    &&& stop < nodes.len()
    &&& match nodes[stop as int] {
        AnyNode::Leaf(_) => true,
        AnyNode::Inner(inner) => shared_prefix_len(inner.key, key) < inner.prefix_len,
        _ => false,
    }
}

/// The number of leading bits that are fixed for the subtree entered at step `j`.
pub open spec fn level_len(nodes: Seq<AnyNode>, path: Seq<(NodeHandle, bool)>, j: int) -> nat {
    if 0 < j <= path.len() {
        (nodes[path[j - 1].0 as int]->Inner_0.prefix_len + 1) as nat
    } else {
        0
    }
}

/// The value of those bits.
pub open spec fn level_prefix(nodes: Seq<AnyNode>, path: Seq<(NodeHandle, bool)>, j: int) -> int {
    if 0 < j <= path.len() {
        child_prefix(nodes[path[j - 1].0 as int]->Inner_0, path[j - 1].1)
    } else {
        0
    }
}

/// The slot at which a descent for `key` from `handle` stops: the first
/// leaf, or the first inner node whose prefix the key does not share.
pub open spec fn split_point(
    nodes: Seq<AnyNode>,
    handle: NodeHandle,
    len: nat,
    key: u128,
) -> NodeHandle
    decreases 128 - len,
{
    if handle < nodes.len() && len <= 128 {
        match nodes[handle as int] {
            AnyNode::Inner(inner) => {
                if len <= inner.prefix_len < 128 && shared_prefix_len(inner.key, key)
                    >= inner.prefix_len {
                    split_point(
                        nodes,
                        inner.children[bit_index(key_bit(key, inner.prefix_len as nat))],
                        (inner.prefix_len + 1) as nat,
                        key,
                    )
                } else {
                    handle
                }
            },
            _ => handle,
        }
    } else {
        handle
    }
}

/// The path of a descent for `key` from `handle`: each inner node whose
/// prefix the key shares, with the bit of the child that the descent enters.
pub open spec fn descent_path(
    nodes: Seq<AnyNode>,
    handle: NodeHandle,
    len: nat,
    key: u128,
) -> Seq<(NodeHandle, bool)>
    decreases 128 - len,
{
    if handle < nodes.len() && len <= 128 {
        match nodes[handle as int] {
            AnyNode::Inner(inner) => {
                if len <= inner.prefix_len < 128 && shared_prefix_len(inner.key, key)
                    >= inner.prefix_len {
                    let bit = key_bit(key, inner.prefix_len as nat);
                    seq![(handle, bit)] + descent_path(
                        nodes,
                        inner.children[bit_index(bit)],
                        (inner.prefix_len + 1) as nat,
                        key,
                    )
                } else {
                    Seq::empty()
                }
            },
            _ => Seq::empty(),
        }
    } else {
        Seq::empty()
    }
}

/// Along a descent in a well-formed trie, each step enters a well-formed
/// subtree whose prefix the key has.
pub proof fn lemma_descent_wf(
    nodes: Seq<AnyNode>,
    path: Seq<(NodeHandle, bool)>,
    stop: NodeHandle,
    key: u128,
    j: int,
)
    requires
        subtree_wf(nodes, entry(path, stop, 0), 0, 0),
        is_descent(nodes, path, stop, key),
        0 <= j <= path.len(),
    ensures
        subtree_wf(
            nodes,
            entry(path, stop, j),
            level_len(nodes, path, j),
            level_prefix(nodes, path, j),
        ),
        key_prefix(key, level_len(nodes, path, j)) == level_prefix(nodes, path, j),
        level_len(nodes, path, j) <= 128,
        forall|i: int| 0 <= i <= j ==> level_len(nodes, path, i) <= level_len(nodes, path, j),
    decreases j,
{
    if j == 0 {
        lemma_prefix_empty(key);
    } else {
        lemma_descent_wf(nodes, path, stop, key, j - 1);
        assert(descent_step(nodes, path, stop, key, j - 1));
        let inner = nodes[path[j - 1].0 as int]->Inner_0;
        let p = inner.prefix_len as nat;
        lemma_shared_prefix(inner.key, key);
        lemma_prefix_shorter(inner.key, key, shared_prefix_len(inner.key, key), p);
    }
}

/// A descent goes on through an inner node whose prefix the key shares.
pub proof fn lemma_descent_longer(
    nodes: Seq<AnyNode>,
    path: Seq<(NodeHandle, bool)>,
    stop: NodeHandle,
    key: u128,
    bit: bool,
    child: NodeHandle,
)
    requires
        subtree_wf(nodes, entry(path, stop, 0), 0, 0),
        is_descent(nodes, path, stop, key),
        stop < nodes.len(),
        nodes[stop as int] matches AnyNode::Inner(inner) && shared_prefix_len(inner.key, key)
            >= inner.prefix_len && bit == key_bit(key, inner.prefix_len as nat) && child
            == inner.children[bit_index(bit)],
    ensures
        is_descent(nodes, path.push((stop, bit)), child, key),
        entry(path.push((stop, bit)), child, 0) == entry(path, stop, 0),
        level_len(nodes, path.push((stop, bit)), path.len() as int + 1) > level_len(
            nodes,
            path,
            path.len() as int,
        ),
        level_len(nodes, path.push((stop, bit)), path.len() as int + 1) <= 128,
{
    let longer = path.push((stop, bit));
    let n = path.len() as int;
    lemma_descent_wf(nodes, path, stop, key, n);
    assert forall|j: int| 0 <= j < longer.len() implies #[trigger] descent_step(
        nodes,
        longer,
        child,
        key,
        j,
    ) by {
        if j < n {
            assert(descent_step(nodes, path, stop, key, j));
        }
    }
}

/// A descent that stops ends at the split point.
pub proof fn lemma_descent_split_point(
    nodes: Seq<AnyNode>,
    path: Seq<(NodeHandle, bool)>,
    stop: NodeHandle,
    key: u128,
    j: int,
)
    requires
        subtree_wf(nodes, entry(path, stop, 0), 0, 0),
        is_descent(nodes, path, stop, key),
        stops_at(nodes, stop, key),
        0 <= j <= path.len(),
    ensures
        split_point(nodes, entry(path, stop, j), level_len(nodes, path, j), key) == stop,
    decreases path.len() - j,
{
    lemma_descent_wf(nodes, path, stop, key, j);
    if j < path.len() {
        assert(descent_step(nodes, path, stop, key, j));
        lemma_descent_split_point(nodes, path, stop, key, j + 1);
    }
}

/// A descent that stops is the path of the descent.
pub proof fn lemma_descent_is_path(
    nodes: Seq<AnyNode>,
    path: Seq<(NodeHandle, bool)>,
    stop: NodeHandle,
    key: u128,
    j: int,
)
    requires
        subtree_wf(nodes, entry(path, stop, 0), 0, 0),
        is_descent(nodes, path, stop, key),
        stops_at(nodes, stop, key),
        0 <= j <= path.len(),
    ensures
        descent_path(nodes, entry(path, stop, j), level_len(nodes, path, j), key) == path.skip(j),
    decreases path.len() - j,
{
    lemma_descent_wf(nodes, path, stop, key, j);
    if j < path.len() {
        assert(descent_step(nodes, path, stop, key, j));
        lemma_descent_is_path(nodes, path, stop, key, j + 1);
    }
}

/// In a well-formed subtree whose prefix the key has, the path of the
/// descent is a descent, and it stops at the split point.
pub proof fn lemma_path_descends(
    nodes: Seq<AnyNode>,
    handle: NodeHandle,
    len: nat,
    prefix: int,
    key: u128,
)
    requires
        subtree_wf(nodes, handle, len, prefix),
        key_prefix(key, len) == prefix,
    ensures
        is_descent(
            nodes,
            descent_path(nodes, handle, len, key),
            split_point(nodes, handle, len, key),
            key,
        ),
        stops_at(nodes, split_point(nodes, handle, len, key), key),
        entry(descent_path(nodes, handle, len, key), split_point(nodes, handle, len, key), 0)
            == handle,
    decreases 128 - len,
{
    let path = descent_path(nodes, handle, len, key);
    let stop = split_point(nodes, handle, len, key);
    match nodes[handle as int] {
        AnyNode::Inner(inner) => {
            if shared_prefix_len(inner.key, key) >= inner.prefix_len {
                let bit = key_bit(key, inner.prefix_len as nat);
                let child = inner.children[bit_index(bit)];
                let below = (inner.prefix_len + 1) as nat;
                let rest = descent_path(nodes, child, below, key);
                lemma_shared_prefix(inner.key, key);
                lemma_prefix_shorter(
                    inner.key,
                    key,
                    shared_prefix_len(inner.key, key),
                    inner.prefix_len as nat,
                );
                lemma_path_descends(nodes, child, below, child_prefix(inner, bit), key);
                assert forall|j: int| 0 <= j < path.len() implies #[trigger] descent_step(
                    nodes,
                    path,
                    stop,
                    key,
                    j,
                ) by {
                    if j > 0 {
                        assert(descent_step(nodes, rest, stop, key, j - 1));
                    }
                }
            }
        },
        _ => {},
    }
}

/// A leaf below a step of a descent is a leaf of the whole tree.
pub proof fn lemma_leaves_subset(
    nodes: Seq<AnyNode>,
    path: Seq<(NodeHandle, bool)>,
    stop: NodeHandle,
    key: u128,
    j: int,
    k: u128,
)
    requires
        subtree_wf(nodes, entry(path, stop, 0), 0, 0),
        is_descent(nodes, path, stop, key),
        0 <= j <= path.len(),
        subtree_leaves(nodes, entry(path, stop, j), level_len(nodes, path, j)).contains_key(k),
    ensures
        subtree_leaves(nodes, entry(path, stop, 0), 0).contains_key(k),
    decreases j,
{
    if j > 0 {
        lemma_descent_wf(nodes, path, stop, key, j - 1);
        assert(descent_step(nodes, path, stop, key, j - 1));
        lemma_leaves_subset(nodes, path, stop, key, j - 1, k);
    }
}

/// Where a descent stops, the key differs from the key of the node there
/// in one of its 128 bits.
pub proof fn lemma_split_bit(
    nodes: Seq<AnyNode>,
    path: Seq<(NodeHandle, bool)>,
    stop: NodeHandle,
    key: u128,
)
    requires
        subtree_wf(nodes, entry(path, stop, 0), 0, 0),
        is_descent(nodes, path, stop, key),
        stops_at(nodes, stop, key),
        !subtree_leaves(nodes, entry(path, stop, 0), 0).contains_key(key),
    ensures
        nodes[stop as int].is_live(),
        shared_prefix_len(nodes[stop as int].spec_key().unwrap(), key) < 128,
        nodes[stop as int] matches AnyNode::Leaf(leaf) ==> leaf.expiry_fits(),
{
    let n = path.len() as int;
    let moved = nodes[stop as int];
    lemma_descent_wf(nodes, path, stop, key, n);
    lemma_shared_prefix(moved.spec_key().unwrap(), key);
    if moved is Leaf {
        lemma_leaves_subset(nodes, path, stop, key, n, moved.spec_key().unwrap());
    }
}

} // verus!
