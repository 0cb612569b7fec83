//! The order tree: a crit-bit trie of orders that lives in an arena of slots.

use crate::arena::{
    free_chain, free_slots, lemma_chain_frame, lemma_chain_length_unique, lemma_chain_skips,
    lemma_free_slots_room, lemma_slots_update, OrderTreeError,
};
use crate::bits::{
    crit_bit, key_prefix, lemma_prefix_empty, lemma_prefix_order_extends, lemma_prefix_orders,
    lemma_prefix_shorter, lemma_shared_prefix, lemma_shared_prefix_at_least, shared_prefix,
    shared_prefix_len,
};
use crate::descent::{
    descent_path, entry, is_descent, lemma_descent_is_path, lemma_descent_longer,
    lemma_descent_split_point, lemma_descent_wf, lemma_split_bit, level_len, split_point, stops_at,
};
use crate::expiry::{path_of_inner, propagated, with_child_expiry};
use crate::insertion::{
    fresh_slots, lemma_insert_below, lemma_split_arena, lemma_split_done, lemma_written_path,
    split_node, split_result,
};
use crate::nodes::{AnyNode, FreeNode, InnerNode, LeafNode, NodeHandle, Side};
use crate::tree::{
    child_prefix, lemma_leaves_finite, lemma_leaves_fit, lemma_leaves_in_region,
    lemma_subtree_frame, subtree_leaves, subtree_wf,
};
use vstd::prelude::*;

verus! {

/// Which side of the book a tree holds.
#[derive(Clone, Copy, Debug, PartialEq, Eq, Structural)]
pub enum OrderTreeType {
    Bids,
    Asks,
}

impl OrderTreeType {
    pub fn side(&self) -> (side: Side)
        ensures
            side == match *self {
                OrderTreeType::Bids => Side::Bid,
                OrderTreeType::Asks => Side::Ask,
            },
    {
        match *self {
            Self::Bids => Side::Bid,
            Self::Asks => Side::Ask,
        }
    }

    /// The type with the given number, if there is one.
    pub fn from_u8(number: u8) -> (tree_type: Option<OrderTreeType>)
        ensures
            tree_type == match number {
                0 => Some(OrderTreeType::Bids),
                1 => Some(OrderTreeType::Asks),
                _ => None::<OrderTreeType>,
            },
    {
        if number == 0 {
            Some(OrderTreeType::Bids)
        } else if number == 1 {
            Some(OrderTreeType::Asks)
        } else {
            None
        }
    }

    pub open spec fn spec_to_u8(self) -> u8 {
        match self {
            OrderTreeType::Bids => 0,
            OrderTreeType::Asks => 1,
        }
    }

    /// The number of this type.
    pub fn to_u8(self) -> (number: u8)
        ensures
            number == self.spec_to_u8(),
    {
        match self {
            OrderTreeType::Bids => 0,
            OrderTreeType::Asks => 1,
        }
    }
}

/// The anchor of a tree: the handle of its root and the number of its leaves.
#[derive(Clone, Copy, Debug, PartialEq, Eq)]
pub struct OrderTreeRoot {
    /// The root's handle; it means something only while `leaf_count > 0`.
    pub maybe_node: NodeHandle,
    pub leaf_count: u32,
}

impl OrderTreeRoot {
    /// The root of an empty tree.
    pub fn new() -> (root: Self)
        ensures
            root.maybe_node == 0,
            root.leaf_count == 0,
    {
        Self { maybe_node: 0, leaf_count: 0 }
    }

    pub open spec fn spec_node(&self) -> Option<NodeHandle> {
        if self.leaf_count == 0 {
            None
        } else {
            Some(self.maybe_node)
        }
    }

    /// The handle of the root; `None` for the empty tree.
    pub fn node(&self) -> (handle: Option<NodeHandle>)
        ensures
            handle == self.spec_node(),
    {
        if self.leaf_count == 0 {
            None
        } else {
            Some(self.maybe_node)
        }
    }
}

/// The arena and what it needs to hand out slots.
#[derive(Clone, Debug, PartialEq, Eq)]
pub struct OrderTreeNodes {
    /// The number of an `OrderTreeType`.
    pub order_tree_type: u8,
    /// The first slot that was never handed out.
    pub bump_index: u32,
    pub free_list_len: u32,
    /// The first slot of the free list; it means something only while
    /// `free_list_len > 0`.
    pub free_list_head: NodeHandle,
    pub nodes: Vec<AnyNode>,
}

impl OrderTreeNodes {
    /// The arena's own invariant: the bump index is in range, the slots
    /// below it are those that were ever written, and the free list is a
    /// chain of `free_list_len` slots that holds every free slot.
    pub open spec fn arena_wf(&self) -> bool {
        &&& self.nodes.len() <= u32::MAX
        &&& self.bump_index <= self.nodes.len()
        &&& forall|i: int|
            0 <= i < self.nodes.len() ==> (#[trigger] self.nodes[i] is Uninitialized <==> i
                >= self.bump_index)
        &&& free_chain(self.nodes@, self.free_list_head, self.free_list_len as nat)
        &&& self.free_list_len == free_slots(self.nodes@, self.bump_index as nat)
    }

    /// The number of slots that can still be handed out.
    pub open spec fn available(&self) -> int {
        self.free_list_len + (self.nodes.len() - self.bump_index)
    }

    /// The handle that the next allocation returns.
    pub open spec fn next_handle(&self) -> NodeHandle {
        if self.free_list_len > 0 {
            self.free_list_head
        } else {
            self.bump_index
        }
    }

    /// The live node in a slot, if the handle names one.
    pub open spec fn spec_node(&self, handle: NodeHandle) -> Option<AnyNode> {
        if handle < self.nodes.len() && self.nodes[handle as int].is_live() {
            Some(self.nodes[handle as int])
        } else {
            None
        }
    }

    /// `after` is this arena with `node` written into the slot that
    /// `next_handle` names: popped off the free list, or taken at the bump index.
    pub open spec fn allocated(&self, after: &Self, node: AnyNode) -> bool {
        &&& after.order_tree_type == self.order_tree_type
        &&& after.nodes@ == self.nodes@.update(self.next_handle() as int, node)
        &&& if self.free_list_len > 0 {
            &&& after.bump_index == self.bump_index
            &&& after.free_list_len == self.free_list_len - 1
            &&& after.free_list_head == match self.nodes[self.free_list_head as int] {
                AnyNode::Free(free) => free.next,
                AnyNode::LastFree(free) => free.next,
                _ => self.free_list_head,
            }
        } else {
            &&& after.bump_index == self.bump_index + 1
            &&& after.free_list_len == 0
            &&& after.free_list_head == self.free_list_head
        }
    }

    /// `after` is this arena with the slot `handle` put at the head of the
    /// free list.
    pub open spec fn released(&self, after: &Self, handle: NodeHandle) -> bool {
        &&& after.order_tree_type == self.order_tree_type
        &&& after.bump_index == self.bump_index
        &&& after.free_list_len == self.free_list_len + 1
        &&& after.free_list_head == handle
        &&& after.nodes@ == self.nodes@.update(
            handle as int,
            if self.free_list_len == 0 {
                AnyNode::LastFree(FreeNode { next: self.free_list_head })
            } else {
                AnyNode::Free(FreeNode { next: self.free_list_head })
            },
        )
    }

    /// An arena of `capacity` slots, none of them used.
    pub fn new(order_tree_type: OrderTreeType, capacity: u32) -> (arena: Self)
        ensures
            arena.arena_wf(),
            arena.order_tree_type == order_tree_type.spec_to_u8(),
            arena.nodes.len() == capacity,
            arena.bump_index == 0,
            arena.free_list_len == 0,
            arena.free_list_head == 0,
            forall|i: int| 0 <= i < capacity ==> #[trigger] arena.nodes[i] is Uninitialized,
    {
        let mut nodes: Vec<AnyNode> = Vec::new();
        let mut i: u32 = 0;
        while i < capacity
            invariant
                i <= capacity,
                nodes.len() == i,
                forall|j: int| 0 <= j < i ==> #[trigger] nodes[j] is Uninitialized,
            decreases capacity - i,
        {
            nodes.push(AnyNode::Uninitialized);
            i = i + 1;
        }
        Self {
            order_tree_type: order_tree_type.to_u8(),
            bump_index: 0,
            free_list_len: 0,
            free_list_head: 0,
            nodes,
        }
    }

    /// The type of the tree, from its number.
    pub fn order_tree_type(&self) -> (tree_type: OrderTreeType)
        requires
            self.order_tree_type <= 1,
        ensures
            tree_type.spec_to_u8() == self.order_tree_type,
    {
        OrderTreeType::from_u8(self.order_tree_type).unwrap()
    }

    /// The live node that a handle names; `None` for a handle out of range
    /// and for a slot that holds no live node.
    pub fn node(&self, handle: NodeHandle) -> (node: Option<&AnyNode>)
        ensures
            node == match self.spec_node(handle) {
                Some(n) => Some(&n),
                None => None::<&AnyNode>,
            },
    {
        if (handle as usize) < self.nodes.len() {
            let node = &self.nodes[handle as usize];
            match node {
                AnyNode::Inner(_) | AnyNode::Leaf(_) => Some(node),
                _ => None,
            }
        } else {
            None
        }
    }

    /// As `node`, to change the node in place.
    pub fn node_mut(&mut self, handle: NodeHandle) -> (node: Option<&mut AnyNode>)
        ensures
            match old(self).spec_node(handle) {
                Some(n) => {
                    &&& node is Some
                    &&& *node->0 == n
                    &&& final(self).nodes@ == old(self).nodes@.update(
                        handle as int,
                        *final(node->0),
                    )
                },
                None => node is None && final(self).nodes@ == old(self).nodes@,
            },
            final(self).order_tree_type == old(self).order_tree_type,
            final(self).bump_index == old(self).bump_index,
            final(self).free_list_len == old(self).free_list_len,
            final(self).free_list_head == old(self).free_list_head,
    {
        if (handle as usize) < self.nodes.len() {
            let live = match &self.nodes[handle as usize] {
                AnyNode::Inner(_) | AnyNode::Leaf(_) => true,
                _ => false,
            };
            if live {
                Some(&mut self.nodes[handle as usize])
            } else {
                None
            }
        } else {
            None
        }
    }

    /// Takes a live node out of the arena and puts its slot on the free list.
    pub fn remove(&mut self, key: NodeHandle) -> (removed: Result<AnyNode, OrderTreeError>)
        requires
            old(self).arena_wf(),
        ensures
            final(self).arena_wf(),
            match old(self).spec_node(key) {
                Some(n) => removed == Ok::<AnyNode, OrderTreeError>(n) && old(self).released(
                    final(self),
                    key,
                ),
                None => removed == Err::<AnyNode, OrderTreeError>(OrderTreeError::NotFound)
                    && *final(self) == *old(self),
            },
    {
        let val = match self.node(key) {
            Some(node) => *node,
            None => {
                return Err(OrderTreeError::NotFound);
            },
        };
        let free = FreeNode { next: self.free_list_head };
        let link = if self.free_list_len == 0 {
            AnyNode::LastFree(free)
        } else {
            AnyNode::Free(free)
        };
        proof {
            let n = self.bump_index as nat;
            lemma_free_slots_room(self.nodes@, n, key as int);
            lemma_slots_update(self.nodes@, n, key as int, link);
            lemma_chain_frame(
                self.nodes@,
                self.nodes@.update(key as int, link),
                self.free_list_head,
                self.free_list_len as nat,
            );
        }
        self.nodes[key as usize] = link;
        self.free_list_len += 1;
        self.free_list_head = key;
        Ok(val)
    }

    /// Puts a live node into a free slot and returns the slot's handle. The
    /// slot comes from the head of the free list, or from the bump index if
    /// the list is empty.
    pub fn insert(&mut self, val: &AnyNode) -> (handle: Result<NodeHandle, OrderTreeError>)
        requires
            old(self).arena_wf(),
            val.is_live(),
        ensures
            final(self).arena_wf(),
            match handle {
                Ok(h) => {
                    &&& old(self).available() > 0
                    &&& h == old(self).next_handle()
                    &&& h < old(self).nodes.len()
                    &&& !old(self).nodes[h as int].is_live()
                    &&& old(self).allocated(final(self), *val)
                },
                Err(e) => {
                    &&& old(self).available() == 0
                    &&& e == OrderTreeError::CapacityExceeded
                    &&& *final(self) == *old(self)
                },
            },
    {
        if self.free_list_len == 0 {
            if (self.bump_index as usize) >= self.nodes.len() {
                return Err(OrderTreeError::CapacityExceeded);
            }
            let key = self.bump_index;
            proof {
                let n = self.bump_index as nat;
                let after = self.nodes@.update(key as int, *val);
                lemma_slots_update(self.nodes@, n, key as int, *val);
            }
            self.nodes[key as usize] = *val;
            self.bump_index += 1;
            return Ok(key);
        }
        let key = self.free_list_head;
        let next = match &self.nodes[key as usize] {
            AnyNode::Free(free) => free.next,
            AnyNode::LastFree(free) => free.next,
            _ => key,
        };
        proof {
            let n = self.bump_index as nat;
            let len = self.free_list_len as nat;
            lemma_slots_update(self.nodes@, n, key as int, *val);
            if len > 1 {
                assert forall|m: nat| 1 <= m <= len - 1 implies !free_chain(
                    self.nodes@,
                    key,
                    m,
                ) by {
                    if free_chain(self.nodes@, key, m) {
                        lemma_chain_length_unique(self.nodes@, key, m, len);
                    }
                }
                lemma_chain_skips(self.nodes@, next, (len - 1) as nat, key, *val);
            }
        }
        self.free_list_head = next;
        self.free_list_len -= 1;
        self.nodes[key as usize] = *val;
        Ok(key)
    }
}

impl OrderTreeNodes {
    /// The leaves of the tree, by key.
    pub open spec fn leaves(&self, root: &OrderTreeRoot) -> Map<u128, LeafNode> {
        if root.leaf_count == 0 {
            Map::empty()
        } else {
            subtree_leaves(self.nodes@, root.maybe_node, 0)
        }
    }

    /// The arena is well formed and `root` anchors a crit-bit trie in it:
    /// empty, or a well-formed subtree over all keys; `leaf_count` is the
    /// number of its leaves.
    pub open spec fn tree_wf(&self, root: &OrderTreeRoot) -> bool {
        &&& self.arena_wf()
        &&& root.leaf_count > 0 ==> subtree_wf(self.nodes@, root.maybe_node, 0, 0)
        &&& root.leaf_count == self.leaves(root).dom().len()
    }

    /// The leaf with the largest key (`find_max`) or with the smallest, and
    /// its handle; `None` for the empty tree.
    pub fn leaf_min_max(&self, find_max: bool, root: &OrderTreeRoot) -> (found: Option<
        (NodeHandle, &LeafNode),
    >)
        requires
            self.tree_wf(root),
        ensures
            match found {
                None => root.leaf_count == 0,
                Some((handle, leaf)) => {
                    &&& root.leaf_count > 0
                    &&& self.spec_node(handle) == Some(AnyNode::Leaf(*leaf))
                    &&& self.leaves(root).contains_key(leaf.key)
                    &&& self.leaves(root)[leaf.key] == *leaf
                    &&& forall|k: u128| #[trigger]
                        self.leaves(root).contains_key(k) ==> if find_max {
                            k <= leaf.key
                        } else {
                            leaf.key <= k
                        }
                },
            },
    {
        let mut node_handle: NodeHandle = match root.node() {
            Some(h) => h,
            None => {
                return None;
            },
        };
        let ghost all = self.leaves(root);
        let ghost mut len: nat = 0;
        let ghost mut prefix: int = 0;
        loop
            invariant
                root.leaf_count > 0,
                all == self.leaves(root),
                subtree_wf(self.nodes@, node_handle, len, prefix),
                forall|k: u128| #[trigger]
                    subtree_leaves(self.nodes@, node_handle, len).contains_key(k)
                        ==> all.contains_key(k) && all[k] == subtree_leaves(
                        self.nodes@,
                        node_handle,
                        len,
                    )[k],
                forall|k: u128| #[trigger]
                    all.contains_key(k) ==> subtree_leaves(
                        self.nodes@,
                        node_handle,
                        len,
                    ).contains_key(k) || if find_max {
                        key_prefix(k, len) < prefix
                    } else {
                        key_prefix(k, len) > prefix
                    },
            decreases 128 - len,
        {
            let ghost here = subtree_leaves(self.nodes@, node_handle, len);
            match self.node(node_handle) {
                Some(AnyNode::Inner(inner)) => {
                    let child = if find_max {
                        inner.children[1]
                    } else {
                        inner.children[0]
                    };
                    proof {
                        let below = (inner.prefix_len + 1) as nat;
                        let one = subtree_leaves(self.nodes@, inner.children[1], below);
                        let next = subtree_leaves(self.nodes@, child, below);
                        assert forall|k: u128| #[trigger]
                            next.contains_key(k) implies all.contains_key(k) && all[k]
                            == next[k] by {
                            if !find_max && one.contains_key(k) {
                                lemma_leaves_in_region(
                                    self.nodes@,
                                    inner.children[0],
                                    below,
                                    child_prefix(*inner, false),
                                    k,
                                );
                                lemma_leaves_in_region(
                                    self.nodes@,
                                    inner.children[1],
                                    below,
                                    child_prefix(*inner, true),
                                    k,
                                );
                            }
                            assert(here.contains_key(k));
                        }
                        assert forall|k: u128| #[trigger]
                            all.contains_key(k) implies next.contains_key(k) || if find_max {
                            key_prefix(k, below) < child_prefix(*inner, find_max)
                        } else {
                            key_prefix(k, below) > child_prefix(*inner, find_max)
                        } by {
                            if here.contains_key(k) {
                                if !next.contains_key(k) {
                                    if find_max {
                                        lemma_leaves_in_region(
                                            self.nodes@,
                                            inner.children[0],
                                            below,
                                            child_prefix(*inner, false),
                                            k,
                                        );
                                    } else {
                                        lemma_leaves_in_region(
                                            self.nodes@,
                                            inner.children[1],
                                            below,
                                            child_prefix(*inner, true),
                                            k,
                                        );
                                    }
                                }
                            } else {
                                let p = inner.prefix_len as nat;
                                if find_max {
                                    lemma_prefix_order_extends(k, inner.key, len, p);
                                } else {
                                    lemma_prefix_order_extends(inner.key, k, len, p);
                                }
                            }
                        }
                        len = below;
                        prefix = child_prefix(*inner, find_max);
                    }
                    node_handle = child;
                },
                Some(AnyNode::Leaf(leaf)) => {
                    proof {
                        assert(here.contains_key(leaf.key));
                        assert forall|k: u128| #[trigger] all.contains_key(k) implies if find_max {
                            k <= leaf.key
                        } else {
                            leaf.key <= k
                        } by {
                            if !here.contains_key(k) {
                                if find_max {
                                    lemma_prefix_orders(k, leaf.key, len);
                                } else {
                                    lemma_prefix_orders(leaf.key, k, len);
                                }
                            }
                        }
                    }
                    return Some((node_handle, leaf));
                },
                _ => {
                    return None;
                },
            }
        }
    }
}

impl OrderTreeNodes {
    /// The handle of the leaf with the given key; `None` if the tree holds
    /// no such leaf.
    pub fn find_by_key(&self, root: &OrderTreeRoot, search_key: u128) -> (found: Option<NodeHandle>)
        requires
            self.tree_wf(root),
        ensures
            match found {
                Some(handle) => self.leaves(root).contains_key(search_key) && self.spec_node(handle)
                    == Some(AnyNode::Leaf(self.leaves(root)[search_key])),
                None => !self.leaves(root).contains_key(search_key),
            },
    {
        let mut node_handle: NodeHandle = match root.node() {
            Some(h) => h,
            None => {
                return None;
            },
        };
        let ghost all = self.leaves(root);
        let ghost mut len: nat = 0;
        let ghost mut prefix: int = 0;
        proof {
            lemma_prefix_empty(search_key);
        }
        loop
            invariant
                root.leaf_count > 0,
                all == self.leaves(root),
                subtree_wf(self.nodes@, node_handle, len, prefix),
                key_prefix(search_key, len) == prefix,
                all.contains_key(search_key) <==> subtree_leaves(
                    self.nodes@,
                    node_handle,
                    len,
                ).contains_key(search_key),
                all.contains_key(search_key) ==> all[search_key] == subtree_leaves(
                    self.nodes@,
                    node_handle,
                    len,
                )[search_key],
            decreases 128 - len,
        {
            let ghost here = subtree_leaves(self.nodes@, node_handle, len);
            match self.node(node_handle) {
                Some(AnyNode::Inner(inner)) => {
                    let ghost below = (inner.prefix_len + 1) as nat;
                    let ghost zero = subtree_leaves(self.nodes@, inner.children[0], below);
                    let ghost one = subtree_leaves(self.nodes@, inner.children[1], below);
                    proof {
                        if zero.contains_key(search_key) {
                            lemma_leaves_in_region(
                                self.nodes@,
                                inner.children[0],
                                below,
                                child_prefix(*inner, false),
                                search_key,
                            );
                        }
                        if one.contains_key(search_key) {
                            lemma_leaves_in_region(
                                self.nodes@,
                                inner.children[1],
                                below,
                                child_prefix(*inner, true),
                                search_key,
                            );
                        }
                        if here.contains_key(search_key) {
                            lemma_shared_prefix_at_least(
                                inner.key,
                                search_key,
                                inner.prefix_len as nat,
                            );
                        }
                    }
                    if shared_prefix(inner.key, search_key) < inner.prefix_len {
                        return None;
                    }
                    let (child, bit) = inner.walk_down(search_key);
                    proof {
                        lemma_shared_prefix(inner.key, search_key);
                        lemma_prefix_shorter(
                            inner.key,
                            search_key,
                            shared_prefix_len(inner.key, search_key),
                            inner.prefix_len as nat,
                        );
                        len = below;
                        prefix = child_prefix(*inner, bit);
                    }
                    node_handle = child;
                },
                Some(AnyNode::Leaf(leaf)) => {
                    if leaf.key == search_key {
                        return Some(node_handle);
                    } else {
                        return None;
                    }
                },
                _ => {
                    return None;
                },
            }
        }
    }
}

impl OrderTreeNodes {
    /// Carries a changed expiry from a node up to the root: see `propagated`.
    /// `stack` is the path from the root down to the node's parent.
    pub fn update_parent_earliest_expiry(
        &mut self,
        stack: &[(NodeHandle, bool)],
        outdated_expiry: u64,
        new_expiry: u64,
    )
        requires
            path_of_inner(old(self).nodes@, stack@),
        ensures
            final(self).nodes@ == propagated(old(self).nodes@, stack@, outdated_expiry, new_expiry),
            final(self).order_tree_type == old(self).order_tree_type,
            final(self).bump_index == old(self).bump_index,
            final(self).free_list_len == old(self).free_list_len,
            final(self).free_list_head == old(self).free_list_head,
    {
        let mut outdated: u64 = outdated_expiry;
        let mut expiry: u64 = new_expiry;
        let mut i: usize = stack.len();
        assert(stack@.take(i as int) =~= stack@);
        while i > 0
            invariant
                i <= stack.len(),
                self.nodes.len() == old(self).nodes.len(),
                path_of_inner(self.nodes@, stack@),
                propagated(self.nodes@, stack@.take(i as int), outdated, expiry) == propagated(
                    old(self).nodes@,
                    stack@,
                    outdated_expiry,
                    new_expiry,
                ),
                self.order_tree_type == old(self).order_tree_type,
                self.bump_index == old(self).bump_index,
                self.free_list_len == old(self).free_list_len,
                self.free_list_head == old(self).free_list_head,
            decreases i,
        {
            i = i - 1;
            let (parent_h, crit_bit) = stack[i];
            proof {
                assert(stack@.take(i + 1).drop_last() =~= stack@.take(i as int));
            }
            let mut parent = match &self.nodes[parent_h as usize] {
                AnyNode::Inner(inner) => *inner,
                _ => {
                    return ;
                },
            };
            let side: usize = if crit_bit {
                1
            } else {
                0
            };
            if parent.child_earliest_expiry[side] != outdated {
                return ;
            }
            let ghost unchanged = parent;
            outdated = parent.earliest_expiry();
            parent.child_earliest_expiry[side] = expiry;
            expiry = parent.earliest_expiry();
            proof {
                assert(parent.child_earliest_expiry =~= with_child_expiry(
                    unchanged,
                    crit_bit,
                    parent.child_earliest_expiry[side as int],
                ).child_earliest_expiry);
            }
            self.nodes[parent_h as usize] = AnyNode::Inner(parent);
            proof {
                assert forall|j: int| 0 <= j < stack@.len() implies (#[trigger] stack@[j]).0
                    < self.nodes.len() && self.nodes[stack@[j].0 as int] is Inner by {
                }
            }
        }
    }
}

impl OrderTreeNodes {
    /// The bookkeeping of the two arenas is the same: all but the slots.
    pub open spec fn same_books(&self, other: &Self) -> bool {
        &&& self.order_tree_type == other.order_tree_type
        &&& self.bump_index == other.bump_index
        &&& self.free_list_len == other.free_list_len
        &&& self.free_list_head == other.free_list_head
    }

    /// The number of slots that inserting a leaf takes: one for the leaf,
    /// and, unless the tree is empty, one for the node that it is split from.
    pub open spec fn slots_needed(root: &OrderTreeRoot) -> int {
        if root.leaf_count == 0 {
            1
        } else {
            2
        }
    }

    /// `after` is this arena with `leaf` split off at the slot where the
    /// descent for its key from `root_handle` stops. Two slots were
    /// allocated, first the one for the leaf, which is `handle`, then the
    /// one for the node of that slot; the slots are then what `split_result`
    /// says.
    pub open spec fn leaf_split_off(
        &self,
        after: &Self,
        root_handle: NodeHandle,
        leaf: LeafNode,
        handle: NodeHandle,
    ) -> bool {
        let stop = split_point(self.nodes@, root_handle, 0, leaf.key);
        exists|first: Self, second: Self|
            {
                &&& #[trigger] self.allocated(&first, AnyNode::Leaf(leaf))
                &&& #[trigger] first.allocated(&second, self.nodes[stop as int])
                &&& second.same_books(after)
                &&& handle == self.next_handle()
                &&& fresh_slots(self.nodes@, handle, first.next_handle())
                &&& after.nodes@ == split_result(
                    self.nodes@,
                    descent_path(self.nodes@, root_handle, 0, leaf.key),
                    stop,
                    leaf,
                    handle,
                    first.next_handle(),
                )
            }
    }

    /// What a successful insertion of `leaf` makes of this arena and of
    /// `root`: the tree has the leaf besides the leaves that it had, and the
    /// leaf is found under `handle`, the next handle of the arena.
    pub open spec fn leaf_inserted(
        &self,
        root: &OrderTreeRoot,
        after: &Self,
        after_root: &OrderTreeRoot,
        leaf: LeafNode,
        handle: NodeHandle,
    ) -> bool {
        &&& after.tree_wf(after_root)
        &&& handle == self.next_handle()
        &&& after.spec_node(handle) == Some(AnyNode::Leaf(leaf))
        &&& after_root.leaf_count == root.leaf_count + 1
        &&& after.leaves(after_root) == self.leaves(root).insert(leaf.key, leaf)
        &&& after.available() == self.available() - Self::slots_needed(root)
        &&& if root.leaf_count == 0 {
            &&& after_root.maybe_node == handle
            &&& self.allocated(after, AnyNode::Leaf(leaf))
        } else {
            &&& after_root.maybe_node == root.maybe_node
            &&& self.leaf_split_off(after, root.maybe_node, leaf, handle)
        }
    }

    /// Inserts a leaf whose key the tree does not hold yet.
    ///
    /// Into an empty tree the leaf goes as the root. Otherwise the descent
    /// for the leaf's key stops at a slot; the leaf and the node of that
    /// slot move into two new slots, and the slot itself takes the inner
    /// node that branches between them. The cached expiries above are then
    /// brought up to date. Where the arena has too few slots left, the tree
    /// stays as it was; a slot that was taken for the leaf is then on the
    /// free list.
    pub fn insert_leaf(
        &mut self,
        root: &mut OrderTreeRoot,
        new_leaf: &LeafNode,
    ) -> (inserted: Result<(NodeHandle, Option<LeafNode>), OrderTreeError>)
        requires
            old(self).tree_wf(old(root)),
            new_leaf.expiry_fits(),
            !old(self).leaves(old(root)).contains_key(new_leaf.key),
        ensures
            final(self).tree_wf(final(root)),
            inserted is Ok <==> old(self).available() >= Self::slots_needed(old(root)),
            match inserted {
                Ok((handle, displaced)) => displaced is None && old(self).leaf_inserted(
                    old(root),
                    final(self),
                    final(root),
                    *new_leaf,
                    handle,
                ),
                Err(e) => {
                    &&& e == OrderTreeError::CapacityExceeded
                    &&& *final(root) == *old(root)
                    &&& final(self).leaves(final(root)) == old(self).leaves(old(root))
                    &&& final(self).available() == old(self).available()
                    &&& forall|x: int|
                        0 <= x < old(self).nodes.len() && (#[trigger] old(self).nodes[x]).is_live()
                            ==> final(self).nodes[x] == old(self).nodes[x]
                    &&& old(self).available() == 0 ==> final(self).nodes@ == old(self).nodes@
                        && final(self).same_books(old(self))
                    &&& old(self).available() == 1 ==> exists|first: Self| #[trigger]
                        old(self).allocated(&first, AnyNode::Leaf(*new_leaf)) && first.released(
                            final(self),
                            old(self).next_handle(),
                        )
                },
            },
    {
        let ghost before = self.nodes@;
        let ghost key = new_leaf.key;
        let root_handle: NodeHandle = match root.node() {
            Some(h) => h,
            None => {
                let handle = match self.insert(&AnyNode::Leaf(*new_leaf)) {
                    Ok(h) => h,
                    Err(e) => {
                        return Err(e);
                    },
                };
                root.maybe_node = handle;
                root.leaf_count = 1;
                proof {
                    lemma_prefix_empty(key);
                }
                return Ok((handle, None));
            },
        };
        let mut stack: Vec<(NodeHandle, bool)> = Vec::new();
        let mut parent_handle: NodeHandle = root_handle;
        let mut parent_contents: AnyNode = AnyNode::Uninitialized;
        let mut shared_len: u32 = 0;
        loop
            invariant
                *self == *old(self),
                *root == *old(root),
                before == self.nodes@,
                key == new_leaf.key,
                subtree_wf(before, root_handle, 0, 0),
                entry(stack@, parent_handle, 0) == root_handle,
                is_descent(before, stack@, parent_handle, key),
            ensures
                stops_at(before, parent_handle, key),
                parent_contents == before[parent_handle as int],
                shared_len == shared_prefix_len(parent_contents.spec_key().unwrap(), key),
            decreases 128 - level_len(before, stack@, stack@.len() as int),
        {
            proof {
                lemma_descent_wf(before, stack@, parent_handle, key, stack@.len() as int);
            }
            parent_contents = *self.node(parent_handle).unwrap();
            let parent_key = parent_contents.key().unwrap();
            shared_len = shared_prefix(parent_key, new_leaf.key);
            if let AnyNode::Inner(inner) = parent_contents {
                if shared_len >= inner.prefix_len {
                    let (child, bit) = inner.walk_down(new_leaf.key);
                    let ghost path = stack@;
                    stack.push((parent_handle, bit));
                    proof {
                        lemma_descent_longer(before, path, parent_handle, key, bit, child);
                    }
                    parent_handle = child;
                    continue ;
                }
            }
            break ;
        }
        let ghost path = stack@;
        let ghost moved = parent_contents;
        proof {
            lemma_split_bit(before, path, parent_handle, key);
        }
        let new_leaf_crit_bit = crit_bit(new_leaf.key, shared_len);
        let new_leaf_handle = match self.insert(&AnyNode::Leaf(*new_leaf)) {
            Ok(h) => h,
            Err(e) => {
                return Err(e);
            },
        };
        let ghost first = *self;
        let moved_parent_handle = match self.insert(&parent_contents) {
            Ok(h) => h,
            Err(e) => {
                let _ = self.remove(new_leaf_handle);
                proof {
                    lemma_subtree_frame(before, self.nodes@, root_handle, 0, 0);
                }
                return Err(e);
            },
        };
        let ghost second = *self;
        let new_leaf_expiry = new_leaf.expiry();
        let old_parent_expiry = parent_contents.earliest_expiry();
        let mut new_parent = InnerNode::new(shared_len, new_leaf.key);
        if new_leaf_crit_bit {
            new_parent.children[1] = new_leaf_handle;
            new_parent.children[0] = moved_parent_handle;
            new_parent.child_earliest_expiry[1] = new_leaf_expiry;
            new_parent.child_earliest_expiry[0] = old_parent_expiry;
        } else {
            new_parent.children[0] = new_leaf_handle;
            new_parent.children[1] = moved_parent_handle;
            new_parent.child_earliest_expiry[0] = new_leaf_expiry;
            new_parent.child_earliest_expiry[1] = old_parent_expiry;
        }
        proof {
            let split = split_node(moved, *new_leaf, new_leaf_handle, moved_parent_handle);
            assert(new_parent.children =~= split.children);
            assert(new_parent.child_earliest_expiry =~= split.child_earliest_expiry);
        }
        self.nodes[parent_handle as usize] = AnyNode::Inner(new_parent);
        proof {
            lemma_written_path(
                before,
                path,
                parent_handle,
                *new_leaf,
                new_leaf_handle,
                moved_parent_handle,
            );
        }
        if new_leaf_expiry < old_parent_expiry {
            self.update_parent_earliest_expiry(
                stack.as_slice(),
                old_parent_expiry,
                new_leaf_expiry,
            );
        }
        proof {
            lemma_leaf_split_off(
                *old(self),
                *old(root),
                first,
                second,
                *self,
                path,
                parent_handle,
                *new_leaf,
            );
        }
        root.leaf_count += 1;
        Ok((new_leaf_handle, None))
    }
}

/// The arena after two allocations, the split and the carrying up of the
/// expiry holds the tree with the new leaf.
proof fn lemma_leaf_split_off(
    before: OrderTreeNodes,
    root: OrderTreeRoot,
    first: OrderTreeNodes,
    second: OrderTreeNodes,
    after: OrderTreeNodes,
    path: Seq<(NodeHandle, bool)>,
    stop: NodeHandle,
    leaf: LeafNode,
)
    requires
        before.tree_wf(&root),
        root.leaf_count > 0,
        leaf.expiry_fits(),
        !before.leaves(&root).contains_key(leaf.key),
        entry(path, stop, 0) == root.maybe_node,
        is_descent(before.nodes@, path, stop, leaf.key),
        stops_at(before.nodes@, stop, leaf.key),
        before.available() >= 2,
        before.allocated(&first, AnyNode::Leaf(leaf)),
        first.allocated(&second, before.nodes[stop as int]),
        fresh_slots(before.nodes@, before.next_handle(), first.next_handle()),
        second.arena_wf(),
        second.same_books(&after),
        after.nodes@ == split_result(
            before.nodes@,
            path,
            stop,
            leaf,
            before.next_handle(),
            first.next_handle(),
        ),
    ensures
        root.leaf_count < u32::MAX,
        before.leaf_inserted(
            &root,
            &after,
            &(OrderTreeRoot {
                maybe_node: root.maybe_node,
                leaf_count: (root.leaf_count + 1) as u32,
            }),
            leaf,
            before.next_handle(),
        ),
{
    let nodes = before.nodes@;
    let handle = before.next_handle();
    let moved = first.next_handle();
    lemma_descent_split_point(nodes, path, stop, leaf.key, 0);
    lemma_descent_is_path(nodes, path, stop, leaf.key, 0);
    assert(path.skip(0) =~= path);
    lemma_split_done(nodes, path, stop, leaf, handle, moved);
    lemma_insert_below(nodes, after.nodes@, path, stop, leaf, handle, moved, 0);
    lemma_leaves_finite(nodes, root.maybe_node, 0);
    lemma_leaves_fit(after.nodes@, root.maybe_node, 0, 0);
    lemma_split_arena(
        nodes,
        after.nodes@,
        path,
        stop,
        leaf,
        handle,
        moved,
        after.bump_index as nat,
    );
    lemma_chain_frame(
        second.nodes@,
        after.nodes@,
        after.free_list_head,
        after.free_list_len as nat,
    );
}

} // verus!
