//! The nodes of the trie, and the keys that order its leaves.

use crate::bits::{crit_bit, key_bit};
use vstd::prelude::*;

verus! {

/// Handle of a slot in the arena: its position.
pub type NodeHandle = u32;

/// Side of the book an order rests on.
#[derive(Clone, Copy, Debug, PartialEq, Eq, Structural)]
pub enum Side {
    Bid,
    Ask,
}

/// The sequence part of a key: inverted for bids, so that among bids of one
/// price the earlier order has the larger key.
pub open spec fn key_seq(side: Side, seq_num: u64) -> int {
    if side == Side::Bid {
        u64::MAX - seq_num
    } else {
        seq_num as int
    }
}

/// The key of an order: the price in the upper 64 bits, the sequence part in
/// the lower 64 bits.
pub open spec fn node_key(side: Side, price_data: u64, seq_num: u64) -> int {
    price_data * 0x1_0000_0000_0000_0000 + key_seq(side, seq_num)
}

pub fn new_node_key(side: Side, price_data: u64, seq_num: u64) -> (key: u128)
    ensures
        key == node_key(side, price_data, seq_num),
{
    let low: u64 = if side == Side::Bid { !seq_num } else { seq_num };
    let upper: u128 = (price_data as u128) << 64;
    let key: u128 = upper | (low as u128);
    assert(!seq_num == 0xffff_ffff_ffff_ffff - seq_num) by (bit_vector);
    assert(((price_data as u128) << 64) | (low as u128) == price_data
        * 0x1_0000_0000_0000_0000 + low) by (bit_vector);
    key
}

/// The price that a key was built from.
pub open spec fn key_price(key: u128) -> int {
    (key / 0x1_0000_0000_0000_0000) as int
}

pub fn price_data(key: u128) -> (price: u64)
    ensures
        price == key_price(key),
{
    assert(key >> 64 == key / 0x1_0000_0000_0000_0000) by (bit_vector);
    assert(key >> 64 <= 0xffff_ffff_ffff_ffff) by (bit_vector);
    (key >> 64) as u64
}

/// Among keys of one side, a higher price gives a larger key, whatever the
/// sequence numbers.
pub proof fn lemma_key_orders_by_price(side: Side, p1: u64, s1: u64, p2: u64, s2: u64)
    requires
        p1 < p2,
    ensures
        node_key(side, p1, s1) < node_key(side, p2, s2),
{
}

/// Among bids of one price, the smaller sequence number gives the larger key.
pub proof fn lemma_bid_key_inverts_sequence(price: u64, s1: u64, s2: u64)
    requires
        s1 < s2,
    ensures
        node_key(Side::Bid, price, s1) > node_key(Side::Bid, price, s2),
{
}

/// Among asks of one price, the smaller sequence number gives the smaller key.
pub proof fn lemma_ask_key_keeps_sequence(price: u64, s1: u64, s2: u64)
    requires
        s1 < s2,
    ensures
        node_key(Side::Ask, price, s1) < node_key(Side::Ask, price, s2),
{
}

impl Side {
    /// The side with the given number, if there is one.
    pub fn from_u8(number: u8) -> (side: Option<Side>)
        ensures
            side == match number {
                0 => Some(Side::Bid),
                1 => Some(Side::Ask),
                _ => None::<Side>,
            },
    {
        if number == 0 {
            Some(Side::Bid)
        } else if number == 1 {
            Some(Side::Ask)
        } else {
            None
        }
    }

    pub open spec fn spec_to_u8(self) -> u8 {
        match self {
            Side::Bid => 0,
            Side::Ask => 1,
        }
    }

    /// The number of this side.
    pub fn to_u8(self) -> (number: u8)
        ensures
            number == self.spec_to_u8(),
    {
        match self {
            Side::Bid => 0,
            Side::Ask => 1,
        }
    }
}

/// What a slot of the arena holds.
#[derive(Clone, Copy, Debug, PartialEq, Eq, Structural)]
pub enum NodeTag {
    Uninitialized,
    InnerNode,
    LeafNode,
    FreeNode,
    LastFreeNode,
}

impl NodeTag {
    /// The tag with the given number; a number that names no tag gives `None`.
    pub fn from_u8(number: u8) -> (tag: Option<NodeTag>)
        ensures
            tag == match number {
                0 => Some(NodeTag::Uninitialized),
                1 => Some(NodeTag::InnerNode),
                2 => Some(NodeTag::LeafNode),
                3 => Some(NodeTag::FreeNode),
                4 => Some(NodeTag::LastFreeNode),
                _ => None::<NodeTag>,
            },
    {
        if number == 0 {
            Some(NodeTag::Uninitialized)
        } else if number == 1 {
            Some(NodeTag::InnerNode)
        } else if number == 2 {
            Some(NodeTag::LeafNode)
        } else if number == 3 {
            Some(NodeTag::FreeNode)
        } else if number == 4 {
            Some(NodeTag::LastFreeNode)
        } else {
            None
        }
    }

    pub open spec fn spec_to_u8(self) -> u8 {
        match self {
            NodeTag::Uninitialized => 0,
            NodeTag::InnerNode => 1,
            NodeTag::LeafNode => 2,
            NodeTag::FreeNode => 3,
            NodeTag::LastFreeNode => 4,
        }
    }

    /// The number of this tag.
    pub fn to_u8(self) -> (number: u8)
        ensures
            number == self.spec_to_u8(),
    {
        match self {
            NodeTag::Uninitialized => 0,
            NodeTag::InnerNode => 1,
            NodeTag::LeafNode => 2,
            NodeTag::FreeNode => 3,
            NodeTag::LastFreeNode => 4,
        }
    }
}

/// An inner node of the trie. Its two subtrees hold the keys that agree with
/// `key` on the first `prefix_len` bits; bit `prefix_len` of a key says
/// under which child it lies.
#[derive(Clone, Copy, Debug, PartialEq, Eq)]
pub struct InnerNode {
    pub prefix_len: u32,
    pub key: u128,
    pub children: [NodeHandle; 2],
    /// For each child, the earliest expiry among the leaves below it.
    pub child_earliest_expiry: [u64; 2],
}

/// The index of the child on the side of a bit.
pub open spec fn bit_index(bit: bool) -> int {
    if bit {
        1
    } else {
        0
    }
}

impl InnerNode {
    pub fn new(prefix_len: u32, key: u128) -> (node: Self)
        ensures
            node.prefix_len == prefix_len,
            node.key == key,
            node.children@ == seq![0u32, 0u32],
            node.child_earliest_expiry@ == seq![u64::MAX, u64::MAX],
    {
        let node = Self {
            prefix_len,
            key,
            children: [0, 0],
            child_earliest_expiry: [u64::MAX, u64::MAX],
        };
        node
    }

    /// The child under which `search_key` lies, and the bit that chose it.
    pub fn walk_down(&self, search_key: u128) -> (step: (NodeHandle, bool))
        requires
            self.prefix_len < 128,
        ensures
            step.1 == key_bit(search_key, self.prefix_len as nat),
            step.0 == self.children[bit_index(step.1)],
    {
        let bit = crit_bit(search_key, self.prefix_len);
        if bit {
            (self.children[1], bit)
        } else {
            (self.children[0], bit)
        }
    }

    pub open spec fn spec_earliest_expiry(&self) -> u64 {
        if self.child_earliest_expiry[0] <= self.child_earliest_expiry[1] {
            self.child_earliest_expiry[0]
        } else {
            self.child_earliest_expiry[1]
        }
    }

    /// The earlier of the two children's earliest expiries.
    pub fn earliest_expiry(&self) -> (expiry: u64)
        ensures
            expiry == self.spec_earliest_expiry(),
    {
        if self.child_earliest_expiry[0] <= self.child_earliest_expiry[1] {
            self.child_earliest_expiry[0]
        } else {
            self.child_earliest_expiry[1]
        }
    }
}

/// A leaf of the trie: one resting order.
#[derive(Clone, Copy, Debug, PartialEq, Eq)]
pub struct LeafNode {
    pub owner_slot: u8,
    /// Seconds from `timestamp` until the order expires; zero for never.
    pub time_in_force: u16,
    pub key: u128,
    pub owner: [u8; 32],
    pub quantity: i64,
    pub timestamp: u64,
    pub peg_limit: i64,
    pub client_order_id: u64,
}

impl LeafNode {
    pub fn new(
        owner_slot: u8,
        key: u128,
        owner: [u8; 32],
        quantity: i64,
        timestamp: u64,
        time_in_force: u16,
        peg_limit: i64,
        client_order_id: u64,
    ) -> (leaf: Self)
        ensures
            leaf == (LeafNode {
                owner_slot,
                time_in_force,
                key,
                owner,
                quantity,
                timestamp,
                peg_limit,
                client_order_id,
            }),
    {
        Self {
            owner_slot,
            time_in_force,
            key,
            owner,
            quantity,
            timestamp,
            peg_limit,
            client_order_id,
        }
    }

    pub fn price_data(&self) -> (price: u64)
        ensures
            price == key_price(self.key),
    {
        price_data(self.key)
    }

    /// The time at which the order expires: `u64::MAX` stands for never.
    pub open spec fn spec_expiry(&self) -> int {
        if self.time_in_force == 0 {
            u64::MAX as int
        } else {
            self.timestamp + self.time_in_force
        }
    }

    /// The expiry is a time that a `u64` can hold.
    pub open spec fn expiry_fits(&self) -> bool {
        self.spec_expiry() <= u64::MAX
    }

    pub fn expiry(&self) -> (expiry: u64)
        requires
            self.expiry_fits(),
        ensures
            expiry == self.spec_expiry(),
    {
        if self.time_in_force == 0 {
            u64::MAX
        } else {
            self.timestamp + self.time_in_force as u64
        }
    }

    pub fn is_expired(&self, now_ts: u64) -> (expired: bool)
        requires
            self.expiry_fits(),
        ensures
            expired == (self.time_in_force > 0 && now_ts >= self.spec_expiry()),
    {
        self.time_in_force > 0 && now_ts >= self.timestamp + self.time_in_force as u64
    }
}

/// A slot on the free list: it holds only the link to the next free slot.
#[derive(Clone, Copy, Debug, PartialEq, Eq)]
pub struct FreeNode {
    pub next: NodeHandle,
}

/// One slot of the arena.
#[derive(Clone, Copy, Debug, PartialEq, Eq)]
pub enum AnyNode {
    /// Never written.
    Uninitialized,
    Inner(InnerNode),
    Leaf(LeafNode),
    /// On the free list, with at least one free slot behind it.
    Free(FreeNode),
    /// On the free list, as its last slot.
    LastFree(FreeNode),
}

/// A live node, by reference.
#[derive(Clone, Copy, Debug, PartialEq, Eq)]
pub enum NodeRef<'a> {
    Inner(&'a InnerNode),
    Leaf(&'a LeafNode),
}

impl AnyNode {
    pub open spec fn spec_tag(&self) -> NodeTag {
        match *self {
            AnyNode::Uninitialized => NodeTag::Uninitialized,
            AnyNode::Inner(_) => NodeTag::InnerNode,
            AnyNode::Leaf(_) => NodeTag::LeafNode,
            AnyNode::Free(_) => NodeTag::FreeNode,
            AnyNode::LastFree(_) => NodeTag::LastFreeNode,
        }
    }

    pub fn tag(&self) -> (tag: NodeTag)
        ensures
            tag == self.spec_tag(),
    {
        match self {
            AnyNode::Uninitialized => NodeTag::Uninitialized,
            AnyNode::Inner(_) => NodeTag::InnerNode,
            AnyNode::Leaf(_) => NodeTag::LeafNode,
            AnyNode::Free(_) => NodeTag::FreeNode,
            AnyNode::LastFree(_) => NodeTag::LastFreeNode,
        }
    }

    /// The slot holds a node of the trie: an inner node or a leaf.
    pub open spec fn is_live(&self) -> bool {
        *self is Inner || *self is Leaf
    }

    pub open spec fn spec_key(&self) -> Option<u128> {
        match *self {
            AnyNode::Inner(inner) => Some(inner.key),
            AnyNode::Leaf(leaf) => Some(leaf.key),
            _ => None,
        }
    }

    /// The key of a live node.
    pub fn key(&self) -> (key: Option<u128>)
        ensures
            key == self.spec_key(),
    {
        match self.case() {
            Some(NodeRef::Inner(inner)) => Some(inner.key),
            Some(NodeRef::Leaf(leaf)) => Some(leaf.key),
            None => None,
        }
    }

    /// The children of an inner node.
    pub fn children(&self) -> (children: Option<[NodeHandle; 2]>)
        requires
            self.is_live(),
        ensures
            children == match *self {
                AnyNode::Inner(inner) => Some(inner.children),
                _ => None::<[NodeHandle; 2]>,
            },
    {
        match self {
            AnyNode::Inner(inner) => Some(inner.children),
            _ => None,
        }
    }

    /// The live node in this slot; a slot that holds none gives `None`.
    pub fn case(&self) -> (node: Option<NodeRef<'_>>)
        ensures
            node == match *self {
                AnyNode::Inner(inner) => Some(NodeRef::Inner(&inner)),
                AnyNode::Leaf(leaf) => Some(NodeRef::Leaf(&leaf)),
                _ => None::<NodeRef>,
            },
    {
        match self {
            AnyNode::Inner(inner) => Some(NodeRef::Inner(inner)),
            AnyNode::Leaf(leaf) => Some(NodeRef::Leaf(leaf)),
            _ => None,
        }
    }

    pub fn as_leaf(&self) -> (leaf: Option<&LeafNode>)
        ensures
            leaf == match *self {
                AnyNode::Leaf(l) => Some(&l),
                _ => None::<&LeafNode>,
            },
    {
        match self {
            AnyNode::Leaf(leaf) => Some(leaf),
            _ => None,
        }
    }

    /// The leaf in this slot, to be changed in place.
    pub fn as_leaf_mut(&mut self) -> (leaf: Option<&mut LeafNode>)
        ensures
            match *old(self) {
                AnyNode::Leaf(l) => leaf is Some && *leaf->0 == l && *final(self) == AnyNode::Leaf(
                    *final(leaf->0),
                ),
                _ => leaf is None && *final(self) == *old(self),
            },
    {
        match self {
            AnyNode::Leaf(leaf) => Some(leaf),
            _ => None,
        }
    }

    pub fn as_inner(&self) -> (inner: Option<&InnerNode>)
        ensures
            inner == match *self {
                AnyNode::Inner(n) => Some(&n),
                _ => None::<&InnerNode>,
            },
    {
        match self {
            AnyNode::Inner(inner) => Some(inner),
            _ => None,
        }
    }

    /// The inner node in this slot, to be changed in place.
    pub fn as_inner_mut(&mut self) -> (inner: Option<&mut InnerNode>)
        ensures
            match *old(self) {
                AnyNode::Inner(n) => inner is Some && *inner->0 == n && *final(self)
                    == AnyNode::Inner(*final(inner->0)),
                _ => inner is None && *final(self) == *old(self),
            },
    {
        match self {
            AnyNode::Inner(inner) => Some(inner),
            _ => None,
        }
    }

    /// The earliest expiry that the node knows of: a leaf's own, an inner
    /// node's cached one.
    pub open spec fn spec_earliest_expiry(&self) -> int {
        match *self {
            AnyNode::Inner(inner) => inner.spec_earliest_expiry() as int,
            AnyNode::Leaf(leaf) => leaf.spec_expiry(),
            _ => u64::MAX as int,
        }
    }

    pub fn earliest_expiry(&self) -> (expiry: u64)
        requires
            self.is_live(),
            *self matches AnyNode::Leaf(leaf) ==> leaf.expiry_fits(),
        ensures
            expiry == self.spec_earliest_expiry(),
    {
        match self {
            AnyNode::Inner(inner) => inner.earliest_expiry(),
            AnyNode::Leaf(leaf) => leaf.expiry(),
            _ => u64::MAX,
        }
    }
}

} // verus!
