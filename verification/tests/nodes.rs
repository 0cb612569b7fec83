use order_tree::{AnyNode, FreeNode, InnerNode, LeafNode, NodeRef, NodeTag};

fn leaf(key: u128, timestamp: u64, time_in_force: u16) -> LeafNode {
    LeafNode::new(3, key, [7; 32], -20, timestamp, time_in_force, 11, 99)
}

#[test]
fn new_inner_node_has_no_children_yet() {
    let inner = InnerNode::new(17, 0xabcd);
    assert_eq!(inner.prefix_len, 17);
    assert_eq!(inner.key, 0xabcd);
    assert_eq!(inner.children, [0, 0]);
    assert_eq!(inner.child_earliest_expiry, [u64::MAX, u64::MAX]);
    assert_eq!(inner.earliest_expiry(), u64::MAX);
}

#[test]
fn walk_down_follows_the_bit_at_prefix_len() {
    let mut inner = InnerNode::new(63, 5 << 64);
    inner.children = [10, 20];
    assert_eq!(inner.walk_down(5 << 64), (20, true));
    assert_eq!(inner.walk_down(4 << 64), (10, false));
    assert_eq!(inner.walk_down(7 << 64), (20, true));
    let mut top = InnerNode::new(0, 0);
    top.children = [1, 2];
    assert_eq!(top.walk_down(u128::MAX), (2, true));
    assert_eq!(top.walk_down(u128::MAX >> 1), (1, false));
    let mut bottom = InnerNode::new(127, 0);
    bottom.children = [3, 4];
    assert_eq!(bottom.walk_down(1), (4, true));
    assert_eq!(bottom.walk_down(2), (3, false));
}

#[test]
fn inner_earliest_expiry_is_the_smaller_cache() {
    let mut inner = InnerNode::new(1, 0);
    inner.child_earliest_expiry = [50, 40];
    assert_eq!(inner.earliest_expiry(), 40);
    inner.child_earliest_expiry = [30, 40];
    assert_eq!(inner.earliest_expiry(), 30);
    inner.child_earliest_expiry = [30, 30];
    assert_eq!(inner.earliest_expiry(), 30);
}

#[test]
fn new_leaf_keeps_every_field() {
    let l = LeafNode::new(3, 0x1234, [9; 32], -20, 1000, 60, 11, 99);
    assert_eq!(l.owner_slot, 3);
    assert_eq!(l.key, 0x1234);
    assert_eq!(l.owner, [9; 32]);
    assert_eq!(l.quantity, -20);
    assert_eq!(l.timestamp, 1000);
    assert_eq!(l.time_in_force, 60);
    assert_eq!(l.peg_limit, 11);
    assert_eq!(l.client_order_id, 99);
    assert_eq!(leaf((77 << 64) | 5, 0, 0).price_data(), 77);
}

#[test]
fn leaf_expiry_is_timestamp_plus_time_in_force() {
    assert_eq!(leaf(1, 1000, 60).expiry(), 1060);
    assert_eq!(leaf(1, 1750435365, 65000).expiry(), 1750500365);
    assert_eq!(leaf(1, 0, 1).expiry(), 1);
    assert_eq!(leaf(1, u64::MAX - 65535, 65535).expiry(), u64::MAX);
}

#[test]
fn leaf_without_time_in_force_never_expires() {
    assert_eq!(leaf(1, 1000, 0).expiry(), u64::MAX);
    assert!(!leaf(1, 1000, 0).is_expired(0));
    assert!(!leaf(1, 1000, 0).is_expired(1000));
    assert!(!leaf(1, 1000, 0).is_expired(u64::MAX));
}

#[test]
fn leaf_is_expired_from_its_expiry_on() {
    let l = leaf(1, 1000, 60);
    assert!(!l.is_expired(0));
    assert!(!l.is_expired(1059));
    assert!(l.is_expired(1060));
    assert!(l.is_expired(1061));
    assert!(l.is_expired(u64::MAX));
}

#[test]
fn any_node_tags() {
    let free = FreeNode { next: 4 };
    assert_eq!(AnyNode::Uninitialized.tag(), NodeTag::Uninitialized);
    assert_eq!(AnyNode::Inner(InnerNode::new(1, 2)).tag(), NodeTag::InnerNode);
    assert_eq!(AnyNode::Leaf(leaf(1, 2, 3)).tag(), NodeTag::LeafNode);
    assert_eq!(AnyNode::Free(free).tag(), NodeTag::FreeNode);
    assert_eq!(AnyNode::LastFree(free).tag(), NodeTag::LastFreeNode);
}

#[test]
fn only_live_nodes_have_a_key() {
    let free = FreeNode { next: 4 };
    assert_eq!(AnyNode::Inner(InnerNode::new(1, 22)).key(), Some(22));
    assert_eq!(AnyNode::Leaf(leaf(33, 2, 3)).key(), Some(33));
    assert_eq!(AnyNode::Uninitialized.key(), None);
    assert_eq!(AnyNode::Free(free).key(), None);
    assert_eq!(AnyNode::LastFree(free).key(), None);
}

#[test]
fn case_classifies_live_nodes_only() {
    let inner = InnerNode::new(1, 22);
    let l = leaf(33, 2, 3);
    let free = FreeNode { next: 4 };
    assert_eq!(AnyNode::Inner(inner).case(), Some(NodeRef::Inner(&inner)));
    assert_eq!(AnyNode::Leaf(l).case(), Some(NodeRef::Leaf(&l)));
    assert_eq!(AnyNode::Uninitialized.case(), None);
    assert_eq!(AnyNode::Free(free).case(), None);
    assert_eq!(AnyNode::LastFree(free).case(), None);
}

#[test]
fn typed_views_refuse_the_wrong_kind() {
    let inner = InnerNode::new(1, 22);
    let l = leaf(33, 2, 3);
    let free = FreeNode { next: 4 };
    assert_eq!(AnyNode::Inner(inner).as_inner(), Some(&inner));
    assert_eq!(AnyNode::Inner(inner).as_leaf(), None);
    assert_eq!(AnyNode::Leaf(l).as_leaf(), Some(&l));
    assert_eq!(AnyNode::Leaf(l).as_inner(), None);
    for mut other in [AnyNode::Uninitialized, AnyNode::Free(free), AnyNode::LastFree(free)] {
        assert_eq!(other.as_inner(), None);
        assert_eq!(other.as_leaf(), None);
        assert_eq!(other.as_inner_mut(), None);
        assert_eq!(other.as_leaf_mut(), None);
    }
}

#[test]
fn mutable_views_change_the_node_in_place() {
    let mut node = AnyNode::Leaf(leaf(33, 2, 3));
    assert_eq!(node.as_inner_mut(), None);
    node.as_leaf_mut().unwrap().quantity = 5;
    let mut changed = leaf(33, 2, 3);
    changed.quantity = 5;
    assert_eq!(node, AnyNode::Leaf(changed));

    let mut node = AnyNode::Inner(InnerNode::new(1, 22));
    assert_eq!(node.as_leaf_mut(), None);
    node.as_inner_mut().unwrap().children = [8, 9];
    let mut changed = InnerNode::new(1, 22);
    changed.children = [8, 9];
    assert_eq!(node, AnyNode::Inner(changed));
}

#[test]
fn children_of_inner_and_leaf() {
    let mut inner = InnerNode::new(1, 22);
    inner.children = [8, 9];
    assert_eq!(AnyNode::Inner(inner).children(), Some([8, 9]));
    assert_eq!(AnyNode::Leaf(leaf(33, 2, 3)).children(), None);
}

#[test]
fn any_node_earliest_expiry() {
    let mut inner = InnerNode::new(1, 22);
    inner.child_earliest_expiry = [70, 60];
    assert_eq!(AnyNode::Inner(inner).earliest_expiry(), 60);
    assert_eq!(AnyNode::Leaf(leaf(33, 100, 5)).earliest_expiry(), 105);
    assert_eq!(AnyNode::Leaf(leaf(33, 100, 0)).earliest_expiry(), u64::MAX);
}
