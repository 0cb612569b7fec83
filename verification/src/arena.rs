//! The arena: a fixed number of slots, handed out by a bump index and
//! recycled through a free list that is threaded through the slots.

use crate::nodes::{AnyNode, NodeHandle};
use vstd::prelude::*;

verus! {

/// Why an operation on the arena or on the tree failed.
#[derive(Clone, Copy, Debug, PartialEq, Eq, Structural)]
pub enum OrderTreeError {
    /// No slot is left: the free list is empty and the bump index is at the end.
    CapacityExceeded,
    /// The handle does not name a slot that holds a live node.
    NotFound,
}

/// The slot is on the free list, as far as its tag says.
pub open spec fn is_free(node: AnyNode) -> bool {
    node is Free || node is LastFree
}

/// `head` starts a chain of exactly `len` free slots, each linked to the
/// next, the last of them tagged as the last.
pub open spec fn free_chain(nodes: Seq<AnyNode>, head: NodeHandle, len: nat) -> bool
    decreases len,
{
    if len == 0 {
        true
    } else {
        &&& head < nodes.len()
        &&& if len == 1 {
            nodes[head as int] is LastFree
        } else {
            &&& nodes[head as int] matches AnyNode::Free(free)
            &&& free_chain(nodes, free.next, (len - 1) as nat)
        }
    }
}

/// The number of free slots among the first `n`.
pub open spec fn free_slots(nodes: Seq<AnyNode>, n: nat) -> nat
    decreases n,
{
    if n == 0 || n > nodes.len() {
        0
    } else {
        free_slots(nodes, (n - 1) as nat) + if is_free(nodes[n - 1]) {
            1nat
        } else {
            0nat
        }
    }
}

/// A chain that starts at a slot has one length only.
pub proof fn lemma_chain_length_unique(nodes: Seq<AnyNode>, head: NodeHandle, a: nat, b: nat)
    requires
        a >= 1,
        b >= 1,
        free_chain(nodes, head, a),
        free_chain(nodes, head, b),
    ensures
        a == b,
    decreases a,
{
    if a > 1 && b > 1 {
        let next = nodes[head as int]->Free_0.next;
        lemma_chain_length_unique(nodes, next, (a - 1) as nat, (b - 1) as nat);
    }
}

/// A chain stays a chain when a slot that starts no chain of its length or
/// less is overwritten.
pub proof fn lemma_chain_skips(
    nodes: Seq<AnyNode>,
    head: NodeHandle,
    len: nat,
    slot: NodeHandle,
    node: AnyNode,
)
    requires
        free_chain(nodes, head, len),
        slot < nodes.len(),
        forall|m: nat| 1 <= m <= len ==> !free_chain(nodes, slot, m),
    ensures
        free_chain(nodes.update(slot as int, node), head, len),
    decreases len,
{
    if len > 0 {
        if len > 1 {
            let next = nodes[head as int]->Free_0.next;
            lemma_chain_skips(nodes, next, (len - 1) as nat, slot, node);
        }
    }
}

/// A chain stays a chain while every free slot keeps its contents.
pub proof fn lemma_chain_frame(nodes: Seq<AnyNode>, after: Seq<AnyNode>, head: NodeHandle, len: nat)
    requires
        free_chain(nodes, head, len),
        after.len() == nodes.len(),
        forall|i: int|
            0 <= i < nodes.len() && is_free(#[trigger] nodes[i]) ==> after[i] == nodes[i],
    ensures
        free_chain(after, head, len),
    decreases len,
{
    if len > 1 {
        let next = nodes[head as int]->Free_0.next;
        lemma_chain_frame(nodes, after, next, (len - 1) as nat);
    }
}

/// Counting is bounded by the number of slots counted.
pub proof fn lemma_slots_bound(nodes: Seq<AnyNode>, n: nat)
    ensures
        free_slots(nodes, n) <= n,
    decreases n,
{
    if n > 0 && n <= nodes.len() {
        lemma_slots_bound(nodes, (n - 1) as nat);
    }
}

/// How the count changes when one slot is overwritten.
pub proof fn lemma_slots_update(nodes: Seq<AnyNode>, n: nat, slot: int, node: AnyNode)
    requires
        0 <= slot < nodes.len(),
        n <= nodes.len(),
    ensures
        free_slots(nodes.update(slot, node), n) == free_slots(nodes, n) + (if slot < n && is_free(
            node,
        ) {
            1int
        } else {
            0int
        }) - (if slot < n && is_free(nodes[slot]) {
            1int
        } else {
            0int
        }),
    decreases n,
{
    if n > 0 {
        lemma_slots_update(nodes, (n - 1) as nat, slot, node);
    }
}

/// Slots that are not free do not count as free.
pub proof fn lemma_slots_extend(nodes: Seq<AnyNode>, n: nat, m: nat)
    requires
        n <= m <= nodes.len(),
        forall|i: int| n <= i < m ==> !is_free(#[trigger] nodes[i]),
    ensures
        free_slots(nodes, m) == free_slots(nodes, n),
    decreases m,
{
    if n < m {
        lemma_slots_extend(nodes, n, (m - 1) as nat);
    }
}

/// With a slot among the first `n` that is not free, fewer than `n` are free.
pub proof fn lemma_free_slots_room(nodes: Seq<AnyNode>, n: nat, slot: int)
    requires
        0 <= slot < n <= nodes.len(),
        !is_free(nodes[slot]),
    ensures
        free_slots(nodes, n) < n,
    decreases n,
{
    if slot == n - 1 {
        lemma_slots_bound(nodes, (n - 1) as nat);
    } else {
        lemma_free_slots_room(nodes, (n - 1) as nat, slot);
    }
}

/// The number of free slots does not change while no slot becomes free or
/// ceases to be free.
pub proof fn lemma_free_slots_same(nodes: Seq<AnyNode>, after: Seq<AnyNode>, n: nat)
    requires
        after.len() == nodes.len(),
        forall|i: int| 0 <= i < nodes.len() ==> is_free(#[trigger] after[i]) == is_free(nodes[i]),
    ensures
        free_slots(after, n) == free_slots(nodes, n),
    decreases n,
{
    if n > 0 && n <= nodes.len() {
        lemma_free_slots_same(nodes, after, (n - 1) as nat);
    }
}

} // verus!
