use order_tree::{AnyNode, InnerNode, LeafNode, OrderTreeNodes, OrderTreeRoot, OrderTreeType};

fn leaf(key: u128, timestamp: u64, time_in_force: u16) -> LeafNode {
    LeafNode::new(2, key, [key as u8; 32], key as i64, timestamp, time_in_force, -1, key as u64)
}

// a fixed sequence of scattered, distinct keys
fn scattered(count: usize) -> Vec<u128> {
    let mut state: u128 = 0x9e37_79b9_7f4a_7c15_f39c_c060_5ced_c835;
    let mut keys = Vec::new();
    while keys.len() < count {
        state = state.wrapping_mul(0x2360_ed05_1fc6_5da4_4385_df64_9fcc_f645).wrapping_add(1);
        let key = match keys.len() % 3 {
            0 => state,
            1 => state >> 64,
            _ => (state >> 96) << 64 | (state & 0xff),
        };
        if !keys.contains(&key) {
            keys.push(key);
        }
    }
    keys
}

fn live_leaves(nodes: &OrderTreeNodes) -> Vec<LeafNode> {
    nodes.nodes.iter().filter_map(|n| n.as_leaf().copied()).collect()
}

// the leaves below a node, and a check of the node's caches and bits on the way
fn check_subtree(nodes: &OrderTreeNodes, handle: u32, min_len: u32) -> Vec<LeafNode> {
    match nodes.node(handle).expect("a child must be live") {
        AnyNode::Leaf(l) => vec![*l],
        AnyNode::Inner(inner) => {
            assert!(inner.prefix_len >= min_len && inner.prefix_len < 128);
            let mut all = Vec::new();
            for side in 0..2usize {
                let below = check_subtree(nodes, inner.children[side], inner.prefix_len + 1);
                let earliest = below.iter().map(|l| l.expiry()).min().unwrap();
                assert_eq!(inner.child_earliest_expiry[side], earliest);
                for l in &below {
                    assert!((l.key ^ inner.key).leading_zeros() >= inner.prefix_len);
                    assert_eq!((l.key >> (127 - inner.prefix_len)) & 1, side as u128);
                }
                all.extend(below);
            }
            all
        }
        _ => unreachable!(),
    }
}

#[test]
fn count_and_contents_after_many_insertions() {
    let keys = scattered(200);
    let mut nodes = OrderTreeNodes::new(OrderTreeType::Bids, 400);
    let mut root = OrderTreeRoot::new();
    for (i, key) in keys.iter().enumerate() {
        let l = leaf(*key, 1000 + i as u64, (i % 7) as u16);
        assert_eq!(nodes.find_by_key(&root, *key), None);
        let (handle, displaced) = nodes.insert_leaf(&mut root, &l).unwrap();
        assert_eq!(displaced, None);
        assert_eq!(nodes.node(handle), Some(&AnyNode::Leaf(l)));
        assert_eq!(root.leaf_count as usize, i + 1);
    }
    assert_eq!(root.leaf_count, 200);
    for (i, key) in keys.iter().enumerate() {
        let handle = nodes.find_by_key(&root, *key).unwrap();
        let l = leaf(*key, 1000 + i as u64, (i % 7) as u16);
        assert_eq!(nodes.node(handle), Some(&AnyNode::Leaf(l)));
    }
    let mut found = check_subtree(&nodes, root.maybe_node, 0);
    let mut stored = live_leaves(&nodes);
    found.sort_by_key(|l| l.key);
    stored.sort_by_key(|l| l.key);
    assert_eq!(found, stored);
    assert_eq!(found.len(), 200);
    assert_eq!(nodes.bump_index, 399);
}

#[test]
fn extremes_are_smallest_and_largest_key_after_each_insertion() {
    let keys = scattered(150);
    let mut nodes = OrderTreeNodes::new(OrderTreeType::Asks, 512);
    let mut root = OrderTreeRoot::new();
    let mut smallest = u128::MAX;
    let mut largest = 0u128;
    for key in keys {
        nodes.insert_leaf(&mut root, &leaf(key, 5, 0)).unwrap();
        smallest = smallest.min(key);
        largest = largest.max(key);
        let (min_handle, min_leaf) = nodes.leaf_min_max(false, &root).unwrap();
        let (max_handle, max_leaf) = nodes.leaf_min_max(true, &root).unwrap();
        assert_eq!(min_leaf.key, smallest);
        assert_eq!(max_leaf.key, largest);
        assert_eq!(nodes.node(min_handle), Some(&AnyNode::Leaf(*min_leaf)));
        assert_eq!(nodes.node(max_handle), Some(&AnyNode::Leaf(*max_leaf)));
    }
}

#[test]
fn root_expiry_is_the_earliest_of_all_leaves() {
    let keys = scattered(120);
    let mut nodes = OrderTreeNodes::new(OrderTreeType::Bids, 512);
    let mut root = OrderTreeRoot::new();
    for (i, key) in keys.iter().enumerate() {
        // expiries go up and down, and some leaves never expire
        let timestamp = 10_000 - (i as u64 * 37) % 5000;
        let time_in_force = ((i * 13) % 5) as u16 * 100;
        nodes.insert_leaf(&mut root, &leaf(*key, timestamp, time_in_force)).unwrap();
        let scanned = live_leaves(&nodes).iter().map(|l| l.expiry()).min().unwrap();
        let cached = nodes.node(root.maybe_node).unwrap().earliest_expiry();
        assert_eq!(cached, scanned);
    }
}

#[test]
fn root_expiry_of_leaves_that_never_expire() {
    let mut nodes = OrderTreeNodes::new(OrderTreeType::Bids, 16);
    let mut root = OrderTreeRoot::new();
    for key in [8u128, 3, 12] {
        nodes.insert_leaf(&mut root, &leaf(key, 77, 0)).unwrap();
    }
    assert_eq!(nodes.node(root.maybe_node).unwrap().earliest_expiry(), u64::MAX);
    nodes.insert_leaf(&mut root, &leaf(5, 77, 3)).unwrap();
    assert_eq!(nodes.node(root.maybe_node).unwrap().earliest_expiry(), 80);
}

#[test]
fn earlier_expiry_is_carried_up_to_the_root() {
    let mut nodes = OrderTreeNodes::new(OrderTreeType::Bids, 16);
    let mut root = OrderTreeRoot::new();
    nodes.insert_leaf(&mut root, &leaf(0b1000, 100, 50)).unwrap();
    nodes.insert_leaf(&mut root, &leaf(0b0001, 100, 40)).unwrap();
    nodes.insert_leaf(&mut root, &leaf(0b0000, 100, 30)).unwrap();
    // slot 0 branches at bit 124, slot its child 0 at bit 127
    let top = *nodes.node(0).unwrap().as_inner().unwrap();
    assert_eq!(top.prefix_len, 124);
    assert_eq!(top.child_earliest_expiry, [130, 150]);
    let low = *nodes.node(top.children[0]).unwrap().as_inner().unwrap();
    assert_eq!(low.prefix_len, 127);
    assert_eq!(low.child_earliest_expiry, [130, 140]);
    // a later expiry changes no cache above the split
    nodes.insert_leaf(&mut root, &leaf(0b1001, 100, 60)).unwrap();
    let top = *nodes.node(0).unwrap().as_inner().unwrap();
    assert_eq!(top.child_earliest_expiry, [130, 150]);
    let high = *nodes.node(top.children[1]).unwrap().as_inner().unwrap();
    assert_eq!(high.child_earliest_expiry, [150, 160]);
}

fn arena_of(slots: Vec<AnyNode>) -> OrderTreeNodes {
    let mut nodes = OrderTreeNodes::new(OrderTreeType::Bids, slots.len() as u32);
    nodes.bump_index = slots.len() as u32;
    nodes.nodes = slots;
    nodes
}

fn inner(children: [u32; 2], expiry: [u64; 2]) -> AnyNode {
    let mut n = InnerNode::new(0, 0);
    n.children = children;
    n.child_earliest_expiry = expiry;
    AnyNode::Inner(n)
}

#[test]
fn update_walks_from_the_last_ancestor_to_the_root() {
    let mut nodes = arena_of(vec![
        inner([1, 9], [50, 70]),
        inner([8, 2], [60, 50]),
        inner([3, 7], [50, 90]),
    ]);
    nodes.update_parent_earliest_expiry(&[(0, false), (1, true), (2, false)], 50, 20);
    assert_eq!(
        nodes.nodes,
        vec![inner([1, 9], [20, 70]), inner([8, 2], [60, 20]), inner([3, 7], [20, 90])]
    );
}

#[test]
fn update_carries_each_ancestors_own_minimum() {
    // the changed child stays behind its sibling: above, the value carried
    // is the ancestor's minimum, before and after
    let mut nodes = arena_of(vec![inner([1, 9], [30, 70]), inner([8, 2], [30, 50])]);
    nodes.update_parent_earliest_expiry(&[(0, false), (1, true)], 50, 40);
    assert_eq!(nodes.nodes, vec![inner([1, 9], [30, 70]), inner([8, 2], [30, 40])]);
    let mut nodes = arena_of(vec![inner([1, 9], [50, 70]), inner([8, 2], [60, 50])]);
    nodes.update_parent_earliest_expiry(&[(0, false), (1, true)], 50, 55);
    assert_eq!(nodes.nodes, vec![inner([1, 9], [55, 70]), inner([8, 2], [60, 55])]);
}

#[test]
fn update_stops_at_the_first_cache_that_differs() {
    let before = vec![inner([1, 9], [50, 70]), inner([8, 2], [60, 45]), inner([3, 7], [50, 90])];
    let mut nodes = arena_of(before.clone());
    nodes.update_parent_earliest_expiry(&[(0, false), (1, true), (2, false)], 50, 20);
    assert_eq!(
        nodes.nodes,
        vec![inner([1, 9], [50, 70]), inner([8, 2], [60, 45]), inner([3, 7], [20, 90])]
    );
    let mut nodes = arena_of(before.clone());
    nodes.update_parent_earliest_expiry(&[(0, false), (1, true), (2, false)], 51, 20);
    assert_eq!(nodes.nodes, before);
}

#[test]
fn update_with_an_empty_stack_changes_nothing() {
    let before = vec![inner([1, 9], [50, 70])];
    let mut nodes = arena_of(before.clone());
    nodes.update_parent_earliest_expiry(&[], 50, 20);
    assert_eq!(nodes.nodes, before);
    assert_eq!(nodes.bump_index, 1);
    assert_eq!(nodes.free_list_len, 0);
}

#[test]
fn find_by_key_tells_present_from_absent() {
    let mut nodes = OrderTreeNodes::new(OrderTreeType::Bids, 64);
    let mut root = OrderTreeRoot::new();
    for key in [0b1000u128, 0b0001, 0b0000, 1 << 127, u128::MAX] {
        nodes.insert_leaf(&mut root, &leaf(key, 1, 1)).unwrap();
    }
    for key in [0b1000u128, 0b0001, 0b0000, 1 << 127, u128::MAX] {
        let handle = nodes.find_by_key(&root, key).unwrap();
        assert_eq!(nodes.node(handle).unwrap().key(), Some(key));
        assert!(nodes.node(handle).unwrap().as_leaf().is_some());
    }
    for key in [0b1001u128, 0b0010, 1 << 126, u128::MAX - 1, (1 << 127) | 1] {
        assert_eq!(nodes.find_by_key(&root, key), None);
    }
}
