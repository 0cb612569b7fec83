//! The order index of a limit order book: a crit-bit trie of orders, keyed
//! by price and sequence number, that lives in an arena of a fixed number of
//! slots.

pub mod arena;
pub mod bits;
pub mod descent;
pub mod expiry;
pub mod insertion;
pub mod laws;
pub mod nodes;
pub mod ordertree;
pub mod tree;

pub use arena::OrderTreeError;
pub use nodes::{
    new_node_key, price_data, AnyNode, FreeNode, InnerNode, LeafNode, NodeHandle, NodeRef,
    NodeTag, Side,
};
pub use ordertree::{OrderTreeNodes, OrderTreeRoot, OrderTreeType};
