use order_tree::{
    AnyNode, FreeNode, InnerNode, LeafNode, OrderTreeError, OrderTreeNodes, OrderTreeRoot,
    OrderTreeType,
};

fn leaf(key: u128) -> LeafNode {
    LeafNode::new(0, key, [1; 32], 10, 100, 0, 0, 0)
}

#[test]
fn new_arena_is_unused() {
    let nodes = OrderTreeNodes::new(OrderTreeType::Asks, 5);
    assert_eq!(nodes.order_tree_type, 1);
    assert_eq!(nodes.order_tree_type(), OrderTreeType::Asks);
    assert_eq!(nodes.bump_index, 0);
    assert_eq!(nodes.free_list_len, 0);
    assert_eq!(nodes.free_list_head, 0);
    assert_eq!(nodes.nodes, vec![AnyNode::Uninitialized; 5]);
    assert_eq!(OrderTreeNodes::new(OrderTreeType::Bids, 0).order_tree_type(), OrderTreeType::Bids);
}

#[test]
fn lookup_is_absent_for_dead_slots_and_handles_out_of_range() {
    let mut nodes = OrderTreeNodes::new(OrderTreeType::Bids, 3);
    assert_eq!(nodes.node(0), None);
    assert_eq!(nodes.node(3), None);
    assert_eq!(nodes.node(u32::MAX), None);
    assert_eq!(nodes.node_mut(0), None);
    assert_eq!(nodes.node_mut(3), None);
    let h = nodes.insert(&AnyNode::Leaf(leaf(5))).unwrap();
    assert_eq!(nodes.node(h), Some(&AnyNode::Leaf(leaf(5))));
    nodes.remove(h).unwrap();
    assert_eq!(nodes.node(h), None);
    assert_eq!(nodes.node_mut(h), None);
}

#[test]
fn node_mut_changes_the_slot() {
    let mut nodes = OrderTreeNodes::new(OrderTreeType::Bids, 3);
    let h = nodes.insert(&AnyNode::Leaf(leaf(5))).unwrap();
    nodes.node_mut(h).unwrap().as_leaf_mut().unwrap().quantity = 77;
    let mut changed = leaf(5);
    changed.quantity = 77;
    assert_eq!(nodes.node(h), Some(&AnyNode::Leaf(changed)));
    assert_eq!(nodes.bump_index, 1);
}

#[test]
fn allocation_takes_bump_slots_in_order() {
    let mut nodes = OrderTreeNodes::new(OrderTreeType::Bids, 3);
    assert_eq!(nodes.insert(&AnyNode::Leaf(leaf(5))), Ok(0));
    assert_eq!(nodes.insert(&AnyNode::Inner(InnerNode::new(1, 2))), Ok(1));
    assert_eq!(nodes.insert(&AnyNode::Leaf(leaf(6))), Ok(2));
    assert_eq!(nodes.bump_index, 3);
    assert_eq!(
        nodes.nodes,
        vec![
            AnyNode::Leaf(leaf(5)),
            AnyNode::Inner(InnerNode::new(1, 2)),
            AnyNode::Leaf(leaf(6))
        ]
    );
}

#[test]
fn allocation_fails_when_the_arena_is_full() {
    let mut nodes = OrderTreeNodes::new(OrderTreeType::Bids, 2);
    nodes.insert(&AnyNode::Leaf(leaf(5))).unwrap();
    nodes.insert(&AnyNode::Leaf(leaf(6))).unwrap();
    let before = nodes.clone();
    assert_eq!(nodes.insert(&AnyNode::Leaf(leaf(7))), Err(OrderTreeError::CapacityExceeded));
    assert_eq!(nodes, before);
    let mut none = OrderTreeNodes::new(OrderTreeType::Bids, 0);
    assert_eq!(none.insert(&AnyNode::Leaf(leaf(7))), Err(OrderTreeError::CapacityExceeded));
}

#[test]
fn release_links_the_slot_into_the_free_list() {
    let mut nodes = OrderTreeNodes::new(OrderTreeType::Bids, 4);
    for key in [5u128, 6, 7] {
        nodes.insert(&AnyNode::Leaf(leaf(key))).unwrap();
    }
    assert_eq!(nodes.remove(1), Ok(AnyNode::Leaf(leaf(6))));
    assert_eq!(nodes.free_list_len, 1);
    assert_eq!(nodes.free_list_head, 1);
    assert_eq!(nodes.nodes[1], AnyNode::LastFree(FreeNode { next: 0 }));
    assert_eq!(nodes.remove(0), Ok(AnyNode::Leaf(leaf(5))));
    assert_eq!(nodes.free_list_len, 2);
    assert_eq!(nodes.free_list_head, 0);
    assert_eq!(nodes.nodes[0], AnyNode::Free(FreeNode { next: 1 }));
    assert_eq!(nodes.bump_index, 3);
}

#[test]
fn release_of_a_dead_slot_is_not_found() {
    let mut nodes = OrderTreeNodes::new(OrderTreeType::Bids, 4);
    nodes.insert(&AnyNode::Leaf(leaf(5))).unwrap();
    let before = nodes.clone();
    assert_eq!(nodes.remove(1), Err(OrderTreeError::NotFound));
    assert_eq!(nodes.remove(4), Err(OrderTreeError::NotFound));
    assert_eq!(nodes.remove(u32::MAX), Err(OrderTreeError::NotFound));
    assert_eq!(nodes, before);
    nodes.remove(0).unwrap();
    let before = nodes.clone();
    assert_eq!(nodes.remove(0), Err(OrderTreeError::NotFound));
    assert_eq!(nodes, before);
}

#[test]
fn released_slot_is_the_next_one_allocated() {
    let mut nodes = OrderTreeNodes::new(OrderTreeType::Bids, 8);
    for key in [5u128, 6, 7, 8] {
        nodes.insert(&AnyNode::Leaf(leaf(key))).unwrap();
    }
    nodes.remove(3).unwrap();
    let before = nodes.clone();
    nodes.remove(1).unwrap();
    assert_eq!(nodes.insert(&AnyNode::Leaf(leaf(9))), Ok(1));
    assert_eq!(nodes.free_list_len, before.free_list_len);
    assert_eq!(nodes.free_list_head, before.free_list_head);
    assert_eq!(nodes.bump_index, before.bump_index);
    assert_eq!(nodes.node(1), Some(&AnyNode::Leaf(leaf(9))));
    // then the one released before it, then the bump index again
    assert_eq!(nodes.insert(&AnyNode::Leaf(leaf(10))), Ok(3));
    assert_eq!(nodes.free_list_len, 0);
    assert_eq!(nodes.insert(&AnyNode::Leaf(leaf(11))), Ok(4));
}

#[test]
fn free_list_is_last_in_first_out() {
    let mut nodes = OrderTreeNodes::new(OrderTreeType::Bids, 8);
    for key in 0..6u128 {
        nodes.insert(&AnyNode::Leaf(leaf(key))).unwrap();
    }
    for h in [2u32, 5, 0, 3] {
        nodes.remove(h).unwrap();
    }
    for h in [3u32, 0, 5, 2, 6, 7] {
        assert_eq!(nodes.insert(&AnyNode::Leaf(leaf(100 + h as u128))), Ok(h));
    }
    assert_eq!(nodes.insert(&AnyNode::Leaf(leaf(200))), Err(OrderTreeError::CapacityExceeded));
}

#[test]
fn released_root_leaf_slot_is_reused_by_the_next_insertion() {
    let mut nodes = OrderTreeNodes::new(OrderTreeType::Bids, 8);
    let mut root = OrderTreeRoot::new();
    let (h, _) = nodes.insert_leaf(&mut root, &leaf(5)).unwrap();
    let free_before = nodes.free_list_len;
    assert_eq!(nodes.remove(h), Ok(AnyNode::Leaf(leaf(5))));
    root = OrderTreeRoot::new();
    assert_eq!(nodes.insert_leaf(&mut root, &leaf(6)), Ok((h, None)));
    assert_eq!(nodes.free_list_len, free_before);
    assert_eq!(nodes.leaf_min_max(true, &root), Some((h, &leaf(6))));
}

#[test]
fn insertion_into_a_full_arena_changes_nothing() {
    // three slots hold a tree of two leaves exactly
    let mut nodes = OrderTreeNodes::new(OrderTreeType::Bids, 3);
    let mut root = OrderTreeRoot::new();
    nodes.insert_leaf(&mut root, &leaf(5)).unwrap();
    nodes.insert_leaf(&mut root, &leaf(9)).unwrap();
    assert_eq!(nodes.bump_index, 3);
    let before = nodes.clone();
    let root_before = root;
    assert_eq!(nodes.insert_leaf(&mut root, &leaf(7)), Err(OrderTreeError::CapacityExceeded));
    assert_eq!(nodes, before);
    assert_eq!(root, root_before);
    assert_eq!(nodes.leaf_min_max(false, &root), Some((2, &leaf(5))));
    assert_eq!(nodes.leaf_min_max(true, &root), Some((1, &leaf(9))));
}

#[test]
fn insertion_into_an_empty_tree_without_slots_fails() {
    let mut nodes = OrderTreeNodes::new(OrderTreeType::Bids, 0);
    let mut root = OrderTreeRoot::new();
    assert_eq!(nodes.insert_leaf(&mut root, &leaf(7)), Err(OrderTreeError::CapacityExceeded));
    assert_eq!(root, OrderTreeRoot::new());
    assert_eq!(nodes, OrderTreeNodes::new(OrderTreeType::Bids, 0));
}

#[test]
fn insertion_with_one_slot_left_rolls_back() {
    let mut nodes = OrderTreeNodes::new(OrderTreeType::Bids, 4);
    let mut root = OrderTreeRoot::new();
    nodes.insert_leaf(&mut root, &leaf(5)).unwrap();
    nodes.insert_leaf(&mut root, &leaf(9)).unwrap();
    let before = nodes.clone();
    let root_before = root;
    assert_eq!(nodes.insert_leaf(&mut root, &leaf(7)), Err(OrderTreeError::CapacityExceeded));
    assert_eq!(root, root_before);
    // the one slot was taken and put back on the free list
    assert_eq!(nodes.bump_index, 4);
    assert_eq!(nodes.free_list_len, 1);
    assert_eq!(nodes.free_list_head, 3);
    assert_eq!(nodes.nodes[3], AnyNode::LastFree(FreeNode { next: 0 }));
    assert_eq!(nodes.nodes[..3], before.nodes[..3]);
    assert_eq!(root.leaf_count, 2);
    assert_eq!(nodes.find_by_key(&root, 7), None);
    // and again, now from the free list: nothing changes at all
    let before = nodes.clone();
    assert_eq!(nodes.insert_leaf(&mut root, &leaf(7)), Err(OrderTreeError::CapacityExceeded));
    assert_eq!(nodes, before);
    assert_eq!(root, root_before);
}

#[test]
fn arena_of_1024_slots_takes_512_leaves() {
    let mut nodes = OrderTreeNodes::new(OrderTreeType::Bids, 1024);
    let mut root = OrderTreeRoot::new();
    for key in 0..512u128 {
        assert!(nodes.insert_leaf(&mut root, &leaf(key * 3)).is_ok());
    }
    assert_eq!(root.leaf_count, 512);
    assert_eq!(nodes.bump_index, 1023);
    assert_eq!(nodes.insert_leaf(&mut root, &leaf(1)), Err(OrderTreeError::CapacityExceeded));
    assert_eq!(root.leaf_count, 512);
    assert_eq!(nodes.leaf_min_max(false, &root).unwrap().1.key, 0);
    assert_eq!(nodes.leaf_min_max(true, &root).unwrap().1.key, 511 * 3);
}
