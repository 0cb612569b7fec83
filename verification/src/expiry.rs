//! The cached expiries of inner nodes, and how a changed expiry is carried
//! up to the root.

use crate::descent::{descent_step, entry, is_descent, lemma_descent_wf, level_len, stops_at};
use crate::nodes::{bit_index, AnyNode, InnerNode, LeafNode, NodeHandle};
use crate::tree::{child_prefix, lemma_leaves_in_region, subtree_leaves, subtree_wf};
use vstd::prelude::*;

verus! {

/// `expiry` is the earliest expiry among `leaves`.
pub open spec fn is_earliest_expiry(leaves: Map<u128, LeafNode>, expiry: int) -> bool {
    &&& exists|k: u128| leaves.contains_key(k) && #[trigger] leaves[k].spec_expiry() == expiry
    &&& forall|k: u128| leaves.contains_key(k) ==> expiry <= #[trigger] leaves[k].spec_expiry()
}

/// What the root of a well-formed subtree gives as its earliest expiry is
/// the earliest expiry among the subtree's leaves.
pub proof fn lemma_subtree_expiry(nodes: Seq<AnyNode>, handle: NodeHandle, len: nat, prefix: int)
    requires
        subtree_wf(nodes, handle, len, prefix),
    ensures
        is_earliest_expiry(
            subtree_leaves(nodes, handle, len),
            nodes[handle as int].spec_earliest_expiry(),
        ),
    decreases 128 - len,
{
    let leaves = subtree_leaves(nodes, handle, len);
    let expiry = nodes[handle as int].spec_earliest_expiry();
    match nodes[handle as int] {
        AnyNode::Leaf(leaf) => {
            assert(leaves.contains_key(leaf.key) && leaves[leaf.key].spec_expiry() == expiry);
        },
        AnyNode::Inner(inner) => {
            let below = (inner.prefix_len + 1) as nat;
            let zero = subtree_leaves(nodes, inner.children[0], below);
            let one = subtree_leaves(nodes, inner.children[1], below);
            lemma_subtree_expiry(nodes, inner.children[0], below, child_prefix(inner, false));
            lemma_subtree_expiry(nodes, inner.children[1], below, child_prefix(inner, true));
            let e0 = inner.child_earliest_expiry[0] as int;
            let e1 = inner.child_earliest_expiry[1] as int;
            let k0 = choose|k: u128| zero.contains_key(k) && #[trigger] zero[k].spec_expiry() == e0;
            if one.contains_key(k0) {
                lemma_leaves_in_region(
                    nodes,
                    inner.children[0],
                    below,
                    child_prefix(inner, false),
                    k0,
                );
                lemma_leaves_in_region(
                    nodes,
                    inner.children[1],
                    below,
                    child_prefix(inner, true),
                    k0,
                );
            }
            assert forall|k: u128| leaves.contains_key(k) implies expiry
                <= #[trigger] leaves[k].spec_expiry() by {
            }
        },
        _ => {},
    }
}

/// The inner node with the cached expiry of one child replaced.
pub open spec fn with_child_expiry(inner: InnerNode, bit: bool, expiry: u64) -> InnerNode {
    InnerNode {
        child_earliest_expiry: if bit {
            [inner.child_earliest_expiry[0], expiry]
        } else {
            [expiry, inner.child_earliest_expiry[1]]
        },
        ..inner
    }
}

/// The arena after a changed expiry has been carried up a path. The path
/// lists, from the root down, each ancestor with the bit of the child that
/// was entered. From the last ancestor up: while the cached expiry for the
/// entered child is `outdated`, it becomes `expiry`; the ancestor's own
/// earliest expiry before and after the change is what is carried to the
/// next ancestor. The first ancestor whose cache differs ends the walk.
pub open spec fn propagated(
    nodes: Seq<AnyNode>,
    path: Seq<(NodeHandle, bool)>,
    outdated: u64,
    expiry: u64,
) -> Seq<AnyNode>
    decreases path.len(),
{
    if path.len() == 0 {
        nodes
    } else {
        let (handle, bit) = path.last();
        if handle < nodes.len() {
            match nodes[handle as int] {
                AnyNode::Inner(inner) => {
                    if inner.child_earliest_expiry[bit_index(bit)] != outdated {
                        nodes
                    } else {
                        let changed = with_child_expiry(inner, bit, expiry);
                        propagated(
                            nodes.update(handle as int, AnyNode::Inner(changed)),
                            path.drop_last(),
                            inner.spec_earliest_expiry(),
                            changed.spec_earliest_expiry(),
                        )
                    }
                },
                _ => nodes,
            }
        } else {
            nodes
        }
    }
}

/// Every entry of the path names an inner node.
pub open spec fn path_of_inner(nodes: Seq<AnyNode>, path: Seq<(NodeHandle, bool)>) -> bool {
    forall|i: int|
        0 <= i < path.len() ==> (#[trigger] path[i]).0 < nodes.len()
            && nodes[path[i].0 as int] is Inner
}

/// The nodes of a path are inner nodes in distinct slots, none of them the
/// slot `stop`, and each caches the earliest expiry of the child that the
/// path enters.
pub open spec fn path_cached(
    nodes: Seq<AnyNode>,
    path: Seq<(NodeHandle, bool)>,
    stop: NodeHandle,
) -> bool {
    &&& stop < nodes.len()
    &&& forall|j: int|
        0 <= j < path.len() ==> {
            &&& (#[trigger] path[j]).0 < nodes.len()
            &&& path[j].0 != stop
            &&& nodes[path[j].0 as int] matches AnyNode::Inner(inner)
            &&& inner.child_earliest_expiry[bit_index(path[j].1)] == nodes[entry(
                path,
                stop,
                j + 1,
            ) as int].spec_earliest_expiry()
        }
    &&& forall|i: int, j: int|
        0 <= i < j < path.len() ==> (#[trigger] path[i]).0 != (#[trigger] path[j]).0
}

/// Each node of the path is as before, but for the cached expiry of the
/// child that the path enters: that is the child's earliest expiry now.
pub open spec fn caches_follow(
    nodes: Seq<AnyNode>,
    after: Seq<AnyNode>,
    path: Seq<(NodeHandle, bool)>,
    stop: NodeHandle,
) -> bool {
    forall|j: int|
        0 <= j < path.len() ==> {
            &&& (#[trigger] after[path[j].0 as int]) matches AnyNode::Inner(changed)
            &&& changed == with_child_expiry(
                nodes[path[j].0 as int]->Inner_0,
                path[j].1,
                changed.child_earliest_expiry[bit_index(path[j].1)],
            )
            &&& changed.child_earliest_expiry[bit_index(path[j].1)] == after[entry(
                path,
                stop,
                j + 1,
            ) as int].spec_earliest_expiry()
        }
}

/// A descent in a well-formed trie is such a path.
pub proof fn lemma_descent_cached(
    nodes: Seq<AnyNode>,
    path: Seq<(NodeHandle, bool)>,
    stop: NodeHandle,
    key: u128,
)
    requires
        subtree_wf(nodes, entry(path, stop, 0), 0, 0),
        is_descent(nodes, path, stop, key),
        stops_at(nodes, stop, key),
    ensures
        path_cached(nodes, path, stop),
{
    assert forall|j: int| 0 <= j < path.len() implies {
        &&& (#[trigger] path[j]).0 < nodes.len()
        &&& path[j].0 != stop
        &&& nodes[path[j].0 as int] matches AnyNode::Inner(inner)
        &&& inner.child_earliest_expiry[bit_index(path[j].1)] == nodes[entry(
            path,
            stop,
            j + 1,
        ) as int].spec_earliest_expiry()
    } by {
        assert(descent_step(nodes, path, stop, key, j));
        lemma_descent_wf(nodes, path, stop, key, j);
    }
    assert forall|i: int, j: int| 0 <= i < j < path.len() implies (#[trigger] path[i]).0 != (
    #[trigger] path[j]).0 by {
        lemma_descent_wf(nodes, path, stop, key, j);
        assert(level_len(nodes, path, i + 1) <= level_len(nodes, path, j));
    }
}

/// Carrying a changed expiry up a path brings the caches of the path up to
/// date and touches no other slot. `cur` is the arena with the steps from
/// `m` on already done.
pub proof fn lemma_propagated_follows(
    nodes: Seq<AnyNode>,
    cur: Seq<AnyNode>,
    path: Seq<(NodeHandle, bool)>,
    stop: NodeHandle,
    m: int,
    outdated: u64,
    expiry: u64,
)
    requires
        0 <= m <= path.len(),
        cur.len() == nodes.len(),
        path_cached(nodes, path, stop),
        forall|j: int| 0 <= j < m ==> cur[(#[trigger] path[j]).0 as int] == nodes[path[j].0 as int],
        m > 0 ==> outdated == nodes[entry(path, stop, m) as int].spec_earliest_expiry() && expiry
            == cur[entry(path, stop, m) as int].spec_earliest_expiry(),
        forall|j: int|
            m <= j < path.len() ==> {
                &&& (#[trigger] cur[path[j].0 as int]) matches AnyNode::Inner(changed)
                &&& changed == with_child_expiry(
                    nodes[path[j].0 as int]->Inner_0,
                    path[j].1,
                    changed.child_earliest_expiry[bit_index(path[j].1)],
                )
                &&& changed.child_earliest_expiry[bit_index(path[j].1)] == cur[entry(
                    path,
                    stop,
                    j + 1,
                ) as int].spec_earliest_expiry()
            },
    ensures
        propagated(cur, path.take(m), outdated, expiry).len() == cur.len(),
        forall|x: int|
            0 <= x < cur.len() && (forall|j: int| 0 <= j < m ==> x != (#[trigger] path[j]).0)
                ==> #[trigger] propagated(cur, path.take(m), outdated, expiry)[x] == cur[x],
        caches_follow(nodes, propagated(cur, path.take(m), outdated, expiry), path, stop),
    decreases m,
{
    let taken = path.take(m);
    if m > 0 {
        let (handle, bit) = path[m - 1];
        assert(taken.drop_last() =~= path.take(m - 1));
        let inner = nodes[handle as int]->Inner_0;
        let changed = with_child_expiry(inner, bit, expiry);
        let next = cur.update(handle as int, AnyNode::Inner(changed));
        assert(entry(path, stop, m) != handle);
        assert forall|j: int| 0 <= j < m - 1 implies next[(#[trigger] path[j]).0 as int]
            == nodes[path[j].0 as int] by {
        }
        assert forall|j: int| m - 1 <= j < path.len() implies {
            &&& (#[trigger] next[path[j].0 as int]) matches AnyNode::Inner(c)
            &&& c == with_child_expiry(
                nodes[path[j].0 as int]->Inner_0,
                path[j].1,
                c.child_earliest_expiry[bit_index(path[j].1)],
            )
            &&& c.child_earliest_expiry[bit_index(path[j].1)] == next[entry(
                path,
                stop,
                j + 1,
            ) as int].spec_earliest_expiry()
        } by {
        }
        lemma_propagated_follows(
            nodes,
            next,
            path,
            stop,
            m - 1,
            inner.spec_earliest_expiry(),
            changed.spec_earliest_expiry(),
        );
        let done = propagated(
            next,
            path.take(m - 1),
            inner.spec_earliest_expiry(),
            changed.spec_earliest_expiry(),
        );
        assert forall|x: int|
            0 <= x < cur.len() && (forall|j: int| 0 <= j < m ==> x != (#[trigger] path[j]).0)
            implies #[trigger] done[x] == cur[x] by {
        }
    }
}

} // verus!
