//! Laws of the arena and of the tree, proved from the contracts of their
//! operations.

use crate::bits::lemma_prefix_empty;
use crate::descent::{descent_path, lemma_path_descends, split_point};
use crate::expiry::{is_earliest_expiry, lemma_subtree_expiry};
use crate::insertion::{fresh_slots, lemma_split_done, split_result};
use crate::nodes::{AnyNode, LeafNode, NodeHandle};
use crate::ordertree::{OrderTreeNodes, OrderTreeRoot};
use crate::tree::lemma_leaves_in_region;
use vstd::prelude::*;

verus! {

/// Insertion `i` of a run: it led from `arenas[i]` and `roots[i]` to the
/// next arena and root, and put `leaves[i]` under `handles[i]`.
pub open spec fn run_step(
    arenas: Seq<OrderTreeNodes>,
    roots: Seq<OrderTreeRoot>,
    leaves: Seq<LeafNode>,
    handles: Seq<NodeHandle>,
    i: int,
) -> bool {
    arenas[i].leaf_inserted(&roots[i], &arenas[i + 1], &roots[i + 1], leaves[i], handles[i])
}

/// A run of successful insertions: `arenas[i]` and `roots[i]` are the state
/// before insertion `i`, and insertion `i` put `leaves[i]` under `handles[i]`.
/// The run starts from an empty tree.
pub open spec fn insertion_run(
    arenas: Seq<OrderTreeNodes>,
    roots: Seq<OrderTreeRoot>,
    leaves: Seq<LeafNode>,
    handles: Seq<NodeHandle>,
) -> bool {
    &&& arenas.len() == leaves.len() + 1
    &&& roots.len() == leaves.len() + 1
    &&& handles.len() == leaves.len()
    &&& roots[0].leaf_count == 0
    &&& arenas[0].tree_wf(&roots[0])
    &&& forall|i: int|
        0 <= i < leaves.len() ==> #[trigger] run_step(arenas, roots, leaves, handles, i)
}

/// After a run of insertions of leaves with distinct keys into an empty
/// tree, the tree counts as many leaves as were inserted, and holds each of
/// them under its key.
pub proof fn lemma_insertions_counted(
    arenas: Seq<OrderTreeNodes>,
    roots: Seq<OrderTreeRoot>,
    leaves: Seq<LeafNode>,
    handles: Seq<NodeHandle>,
)
    requires
        insertion_run(arenas, roots, leaves, handles),
        forall|i: int, j: int| 0 <= i < j < leaves.len() ==> leaves[i].key != leaves[j].key,
    ensures
        roots.last().leaf_count == leaves.len(),
        arenas.last().tree_wf(&roots.last()),
        forall|i: int|
            0 <= i < leaves.len() ==> arenas.last().leaves(&roots.last()).contains_key(
                #[trigger] leaves[i].key,
            ) && arenas.last().leaves(&roots.last())[leaves[i].key] == leaves[i],
{
    lemma_counted_so_far(arenas, roots, leaves, handles, leaves.len() as int);
}

/// The same after the first `k` insertions of the run.
proof fn lemma_counted_so_far(
    arenas: Seq<OrderTreeNodes>,
    roots: Seq<OrderTreeRoot>,
    leaves: Seq<LeafNode>,
    handles: Seq<NodeHandle>,
    k: int,
)
    requires
        insertion_run(arenas, roots, leaves, handles),
        forall|i: int, j: int| 0 <= i < j < leaves.len() ==> leaves[i].key != leaves[j].key,
        0 <= k <= leaves.len(),
    ensures
        roots[k].leaf_count == k,
        arenas[k].tree_wf(&roots[k]),
        forall|i: int|
            0 <= i < k ==> arenas[k].leaves(&roots[k]).contains_key(#[trigger] leaves[i].key)
                && arenas[k].leaves(&roots[k])[leaves[i].key] == leaves[i],
    decreases k,
{
    if k > 0 {
        lemma_counted_so_far(arenas, roots, leaves, handles, k - 1);
        assert(run_step(arenas, roots, leaves, handles, k - 1));
    }
}

/// Right after its insertion a leaf is found under the handle that the
/// insertion returned. It stays there through a later insertion unless that
/// insertion's descent stops at this very slot: then the leaf moves to a
/// new slot, and the slot takes the inner node above it.
pub proof fn lemma_leaf_kept(
    before: OrderTreeNodes,
    root: OrderTreeRoot,
    after: OrderTreeNodes,
    after_root: OrderTreeRoot,
    leaf: LeafNode,
    handle: NodeHandle,
    slot: NodeHandle,
)
    requires
        before.tree_wf(&root),
        before.leaf_inserted(&root, &after, &after_root, leaf, handle),
        slot < before.nodes.len(),
        before.nodes[slot as int] is Leaf,
    ensures
        after.spec_node(handle) == Some(AnyNode::Leaf(leaf)),
        root.leaf_count == 0 || slot != split_point(before.nodes@, root.maybe_node, 0, leaf.key)
            ==> after.nodes[slot as int] == before.nodes[slot as int],
        root.leaf_count > 0 && slot == split_point(before.nodes@, root.maybe_node, 0, leaf.key)
            ==> after.nodes[slot as int] is Inner && exists|moved: int|
            0 <= moved < after.nodes.len() && !before.nodes[moved].is_live()
                && #[trigger] after.nodes[moved] == before.nodes[slot as int],
{
    if root.leaf_count == 0 {
    } else {
        let nodes = before.nodes@;
        let path = descent_path(nodes, root.maybe_node, 0, leaf.key);
        let stop = split_point(nodes, root.maybe_node, 0, leaf.key);
        let (first, second) = choose|first: OrderTreeNodes, second: OrderTreeNodes|
            {
                &&& #[trigger] before.allocated(&first, AnyNode::Leaf(leaf))
                &&& #[trigger] first.allocated(&second, nodes[stop as int])
                &&& second.same_books(&after)
                &&& handle == before.next_handle()
                &&& fresh_slots(nodes, handle, first.next_handle())
                &&& after.nodes@ == split_result(
                    nodes,
                    path,
                    stop,
                    leaf,
                    handle,
                    first.next_handle(),
                )
            };
        let moved = first.next_handle();
        lemma_prefix_empty(leaf.key);
        lemma_path_descends(nodes, root.maybe_node, 0, 0, leaf.key);
        lemma_leaves_in_region(after.nodes@, after_root.maybe_node, 0, 0, leaf.key);
        lemma_split_done(nodes, path, stop, leaf, handle, moved);
    }
}

/// After a run of insertions into an empty tree, each leaf is found under
/// the handle that its insertion returned, provided that no later
/// insertion's descent stopped at that handle.
pub proof fn lemma_leaves_found_at_handles(
    arenas: Seq<OrderTreeNodes>,
    roots: Seq<OrderTreeRoot>,
    leaves: Seq<LeafNode>,
    handles: Seq<NodeHandle>,
)
    requires
        insertion_run(arenas, roots, leaves, handles),
        forall|i: int, j: int|
            0 <= i < j < leaves.len() ==> #[trigger] handles[i] != split_point(
                (#[trigger] arenas[j]).nodes@,
                roots[j].maybe_node,
                0,
                leaves[j].key,
            ),
    ensures
        forall|i: int|
            0 <= i < leaves.len() ==> arenas.last().spec_node(#[trigger] handles[i]) == Some(
                AnyNode::Leaf(leaves[i]),
            ),
{
    lemma_found_so_far(arenas, roots, leaves, handles, leaves.len() as int);
}

/// The same after the first `k` insertions of the run.
proof fn lemma_found_so_far(
    arenas: Seq<OrderTreeNodes>,
    roots: Seq<OrderTreeRoot>,
    leaves: Seq<LeafNode>,
    handles: Seq<NodeHandle>,
    k: int,
)
    requires
        insertion_run(arenas, roots, leaves, handles),
        forall|i: int, j: int|
            0 <= i < j < leaves.len() ==> #[trigger] handles[i] != split_point(
                (#[trigger] arenas[j]).nodes@,
                roots[j].maybe_node,
                0,
                leaves[j].key,
            ),
        0 <= k <= leaves.len(),
    ensures
        arenas[k].tree_wf(&roots[k]),
        forall|i: int|
            0 <= i < k ==> arenas[k].spec_node(#[trigger] handles[i]) == Some(
                AnyNode::Leaf(leaves[i]),
            ),
    decreases k,
{
    if k > 0 {
        lemma_found_so_far(arenas, roots, leaves, handles, k - 1);
        assert(run_step(arenas, roots, leaves, handles, k - 1));
        assert forall|i: int| 0 <= i < k implies arenas[k].spec_node(#[trigger] handles[i]) == Some(
            AnyNode::Leaf(leaves[i]),
        ) by {
            if i < k - 1 {
                lemma_leaf_kept(
                    arenas[k - 1],
                    roots[k - 1],
                    arenas[k],
                    roots[k],
                    leaves[k - 1],
                    handles[k - 1],
                    handles[i],
                );
            }
        }
    }
}

/// The earliest expiry that the root of a tree gives is the earliest expiry
/// among all leaves of the tree.
pub proof fn lemma_root_expiry_is_earliest(arena: OrderTreeNodes, root: OrderTreeRoot)
    requires
        arena.tree_wf(&root),
        root.leaf_count > 0,
    ensures
        arena.spec_node(root.maybe_node) is Some,
        is_earliest_expiry(
            arena.leaves(&root),
            arena.nodes[root.maybe_node as int].spec_earliest_expiry(),
        ),
{
    lemma_subtree_expiry(arena.nodes@, root.maybe_node, 0, 0);
}

/// The free list gives back first what it took last: a slot that is
/// released is the slot that the next allocation returns, and after that
/// allocation the free list and the bump index are as they were before the
/// release.
pub proof fn lemma_release_then_allocate(
    before: OrderTreeNodes,
    released: OrderTreeNodes,
    after: OrderTreeNodes,
    handle: NodeHandle,
    node: AnyNode,
)
    requires
        before.arena_wf(),
        before.spec_node(handle) is Some,
        before.released(&released, handle),
        released.allocated(&after, node),
    ensures
        released.next_handle() == handle,
        after.nodes@ == before.nodes@.update(handle as int, node),
        after.free_list_len == before.free_list_len,
        after.free_list_head == before.free_list_head,
        after.bump_index == before.bump_index,
{
}

} // verus!
