//! What makes the slots of an arena a crit-bit trie, and what follows from it.

use crate::bits::{key_bit, key_prefix, lemma_prefix_shorter};
use crate::nodes::{bit_index, AnyNode, InnerNode, LeafNode, NodeHandle};
use vstd::prelude::*;
use vstd::set_lib::{lemma_int_range, lemma_len_subset, lemma_set_disjoint_lens, set_int_range};

verus! {

/// The prefix that the keys below one child of an inner node start with: the
/// node's own prefix, followed by the child's bit.
pub open spec fn child_prefix(inner: InnerNode, bit: bool) -> int {
    2 * key_prefix(inner.key, inner.prefix_len as nat) + bit_index(bit)
}

/// A node whose key starts with the `len` bits `prefix`, and which, if it is
/// an inner node, branches at bit `len` or at a later bit.
pub open spec fn in_region(node: AnyNode, len: nat, prefix: int) -> bool {
    match node {
        AnyNode::Leaf(leaf) => key_prefix(leaf.key, len) == prefix,
        AnyNode::Inner(inner) => len <= inner.prefix_len && key_prefix(inner.key, len) == prefix,
        _ => false,
    }
}

/// The slot `handle` is the root of a well-formed subtree, all of whose keys
/// start with the `len` bits `prefix`:
/// - a leaf, whose expiry fits; or
/// - an inner node that branches at bit `prefix_len`, which is bit `len` or
///   a later bit, whose children are well-formed subtrees for its own
///   prefix followed by 0 and by 1, and whose cached expiries are the
///   earliest expiries that its children give.
pub open spec fn subtree_wf(nodes: Seq<AnyNode>, handle: NodeHandle, len: nat, prefix: int) -> bool
    decreases 128 - len,
{
    if handle >= nodes.len() || len > 128 {
        false
    } else {
        match nodes[handle as int] {
            AnyNode::Leaf(leaf) => key_prefix(leaf.key, len) == prefix && leaf.expiry_fits(),
            AnyNode::Inner(inner) => {
                if len <= inner.prefix_len < 128 {
                    let below = (inner.prefix_len + 1) as nat;
                    &&& key_prefix(inner.key, len) == prefix
                    &&& subtree_wf(nodes, inner.children[0], below, child_prefix(inner, false))
                    &&& subtree_wf(nodes, inner.children[1], below, child_prefix(inner, true))
                    &&& inner.child_earliest_expiry[0]
                        == nodes[inner.children[0] as int].spec_earliest_expiry()
                    &&& inner.child_earliest_expiry[1]
                        == nodes[inner.children[1] as int].spec_earliest_expiry()
                } else {
                    false
                }
            },
            _ => false,
        }
    }
}

/// The leaves of the subtree at `handle`, by key.
pub open spec fn subtree_leaves(nodes: Seq<AnyNode>, handle: NodeHandle, len: nat) -> Map<
    u128,
    LeafNode,
>
    decreases 128 - len,
{
    if handle >= nodes.len() || len > 128 {
        Map::empty()
    } else {
        match nodes[handle as int] {
            AnyNode::Leaf(leaf) => Map::empty().insert(leaf.key, leaf),
            AnyNode::Inner(inner) => {
                if len <= inner.prefix_len < 128 {
                    let below = (inner.prefix_len + 1) as nat;
                    subtree_leaves(nodes, inner.children[0], below).union_prefer_right(
                        subtree_leaves(nodes, inner.children[1], below),
                    )
                } else {
                    Map::empty()
                }
            },
            _ => Map::empty(),
        }
    }
}

/// A key below a child of an inner node starts as the node's key does.
pub proof fn lemma_child_prefix(key: u128, inner: InnerNode, bit: bool, len: nat)
    requires
        len <= inner.prefix_len < 128,
        key_prefix(key, (inner.prefix_len + 1) as nat) == child_prefix(inner, bit),
    ensures
        key_prefix(key, inner.prefix_len as nat) == key_prefix(inner.key, inner.prefix_len as nat),
        key_prefix(key, len) == key_prefix(inner.key, len),
        key_bit(key, inner.prefix_len as nat) == bit,
{
    lemma_prefix_shorter(key, inner.key, inner.prefix_len as nat, len);
}

/// The converse: a key that starts as the node's key does lies below the
/// child that its next bit names.
pub proof fn lemma_child_prefix_of(key: u128, inner: InnerNode)
    requires
        inner.prefix_len < 128,
        key_prefix(key, inner.prefix_len as nat) == key_prefix(inner.key, inner.prefix_len as nat),
    ensures
        key_prefix(key, (inner.prefix_len + 1) as nat) == child_prefix(
            inner,
            key_bit(key, inner.prefix_len as nat),
        ),
{
}

/// The region of a child lies within the region of its parent.
pub proof fn lemma_region_narrows(node: AnyNode, inner: InnerNode, bit: bool, len: nat)
    requires
        len <= inner.prefix_len < 128,
        in_region(node, (inner.prefix_len + 1) as nat, child_prefix(inner, bit)),
    ensures
        in_region(node, len, key_prefix(inner.key, len) as int),
{
    match node {
        AnyNode::Leaf(leaf) => lemma_child_prefix(leaf.key, inner, bit, len),
        AnyNode::Inner(n) => lemma_child_prefix(n.key, inner, bit, len),
        _ => {},
    }
}

/// The root of a well-formed subtree lies in the subtree's region.
pub proof fn lemma_root_in_region(nodes: Seq<AnyNode>, handle: NodeHandle, len: nat, prefix: int)
    requires
        subtree_wf(nodes, handle, len, prefix),
    ensures
        handle < nodes.len(),
        nodes[handle as int].is_live(),
        in_region(nodes[handle as int], len, prefix),
{
}

/// A subtree is untouched by changes outside its region.
pub proof fn lemma_subtree_frame(
    nodes: Seq<AnyNode>,
    after: Seq<AnyNode>,
    handle: NodeHandle,
    len: nat,
    prefix: int,
)
    requires
        subtree_wf(nodes, handle, len, prefix),
        after.len() == nodes.len(),
        forall|i: int|
            0 <= i < nodes.len() && in_region(#[trigger] nodes[i], len, prefix) ==> after[i]
                == nodes[i],
    ensures
        subtree_wf(after, handle, len, prefix),
        subtree_leaves(after, handle, len) == subtree_leaves(nodes, handle, len),
        after[handle as int] == nodes[handle as int],
    decreases 128 - len,
{
    match nodes[handle as int] {
        AnyNode::Inner(inner) => {
            let below = (inner.prefix_len + 1) as nat;
            assert forall|i: int|
                0 <= i < nodes.len() && in_region(
                    #[trigger] nodes[i],
                    below,
                    child_prefix(inner, false),
                ) implies after[i] == nodes[i] by {
                lemma_region_narrows(nodes[i], inner, false, len);
            }
            assert forall|i: int|
                0 <= i < nodes.len() && in_region(
                    #[trigger] nodes[i],
                    below,
                    child_prefix(inner, true),
                ) implies after[i] == nodes[i] by {
                lemma_region_narrows(nodes[i], inner, true, len);
            }
            lemma_subtree_frame(nodes, after, inner.children[0], below, child_prefix(inner, false));
            lemma_subtree_frame(nodes, after, inner.children[1], below, child_prefix(inner, true));
        },
        _ => {},
    }
}

/// Every leaf of a well-formed subtree is filed under its own key, starts
/// with the subtree's prefix, and has an expiry that fits.
pub proof fn lemma_leaves_in_region(
    nodes: Seq<AnyNode>,
    handle: NodeHandle,
    len: nat,
    prefix: int,
    key: u128,
)
    requires
        subtree_wf(nodes, handle, len, prefix),
        subtree_leaves(nodes, handle, len).contains_key(key),
    ensures
        key_prefix(key, len) == prefix,
        subtree_leaves(nodes, handle, len)[key].key == key,
        subtree_leaves(nodes, handle, len)[key].expiry_fits(),
    decreases 128 - len,
{
    match nodes[handle as int] {
        AnyNode::Inner(inner) => {
            let below = (inner.prefix_len + 1) as nat;
            if subtree_leaves(nodes, inner.children[1], below).contains_key(key) {
                lemma_leaves_in_region(
                    nodes,
                    inner.children[1],
                    below,
                    child_prefix(inner, true),
                    key,
                );
                lemma_child_prefix(key, inner, true, len);
            } else {
                lemma_leaves_in_region(
                    nodes,
                    inner.children[0],
                    below,
                    child_prefix(inner, false),
                    key,
                );
                lemma_child_prefix(key, inner, false, len);
            }
        },
        _ => {},
    }
}

/// A subtree has finitely many leaves.
pub proof fn lemma_leaves_finite(nodes: Seq<AnyNode>, handle: NodeHandle, len: nat)
    ensures
        subtree_leaves(nodes, handle, len).dom().finite(),
    decreases 128 - len,
{
    if handle < nodes.len() && len <= 128 {
        match nodes[handle as int] {
            AnyNode::Leaf(leaf) => {
            },
            AnyNode::Inner(inner) => {
                if len <= inner.prefix_len < 128 {
                    let below = (inner.prefix_len + 1) as nat;
                    let zero = subtree_leaves(nodes, inner.children[0], below);
                    let one = subtree_leaves(nodes, inner.children[1], below);
                    lemma_leaves_finite(nodes, inner.children[0], below);
                    lemma_leaves_finite(nodes, inner.children[1], below);
                    assert(
                        subtree_leaves(nodes, handle, len).dom() =~= zero.dom().union(one.dom())
                    );
                }
            },
            _ => {},
        }
    }
}

/// The slots that hold a leaf whose key starts with the `len` bits `prefix`.
pub open spec fn leaf_region(nodes: Seq<AnyNode>, len: nat, prefix: int) -> Set<int> {
    Set::new(|i: int| 0 <= i < nodes.len() && nodes[i] is Leaf && in_region(nodes[i], len, prefix))
}

/// A well-formed subtree has no more leaves than there are leaf slots in
/// its region, and so no more than the arena has slots.
pub proof fn lemma_leaves_fit(nodes: Seq<AnyNode>, handle: NodeHandle, len: nat, prefix: int)
    requires
        subtree_wf(nodes, handle, len, prefix),
    ensures
        subtree_leaves(nodes, handle, len).dom().finite(),
        leaf_region(nodes, len, prefix).finite(),
        subtree_leaves(nodes, handle, len).dom().len() <= leaf_region(nodes, len, prefix).len(),
        leaf_region(nodes, len, prefix).len() <= nodes.len(),
    decreases 128 - len,
{
    let region = leaf_region(nodes, len, prefix);
    let leaves = subtree_leaves(nodes, handle, len);
    lemma_int_range(0, nodes.len() as int);
    lemma_len_subset(region, set_int_range(0, nodes.len() as int));
    match nodes[handle as int] {
        AnyNode::Leaf(leaf) => {
            assert(region.contains(handle as int));
        },
        AnyNode::Inner(inner) => {
            let below = (inner.prefix_len + 1) as nat;
            let zero = subtree_leaves(nodes, inner.children[0], below).dom();
            let one = subtree_leaves(nodes, inner.children[1], below).dom();
            let region_zero = leaf_region(nodes, below, child_prefix(inner, false));
            let region_one = leaf_region(nodes, below, child_prefix(inner, true));
            lemma_leaves_fit(nodes, inner.children[0], below, child_prefix(inner, false));
            lemma_leaves_fit(nodes, inner.children[1], below, child_prefix(inner, true));
            assert(leaves.dom() =~= zero + one);
            assert(zero.disjoint(one)) by {
                assert forall|k: u128| zero.contains(k) implies !one.contains(k) by {
                    if one.contains(k) {
                        lemma_leaves_in_region(
                            nodes,
                            inner.children[0],
                            below,
                            child_prefix(inner, false),
                            k,
                        );
                        lemma_leaves_in_region(
                            nodes,
                            inner.children[1],
                            below,
                            child_prefix(inner, true),
                            k,
                        );
                    }
                }
            }
            lemma_set_disjoint_lens(zero, one);
            lemma_set_disjoint_lens(region_zero, region_one);
            assert((region_zero + region_one).subset_of(region)) by {
                assert forall|i: int|
                    (region_zero + region_one).contains(i) implies region.contains(i) by {
                    if region_zero.contains(i) {
                        lemma_region_narrows(nodes[i], inner, false, len);
                    } else {
                        lemma_region_narrows(nodes[i], inner, true, len);
                    }
                }
            }
            lemma_len_subset(region_zero + region_one, region);
        },
        _ => {},
    }
}

} // verus!
