use order_tree::bits::{crit_bit, shared_prefix};
use order_tree::{new_node_key, price_data, NodeTag, OrderTreeType, Side};

#[test]
fn bid_key_inverts_the_sequence_number() {
    assert_eq!(new_node_key(Side::Bid, 5, 1), (5u128 << 64) | 0xffff_ffff_ffff_fffe);
    assert_eq!(new_node_key(Side::Bid, 0, 0), 0xffff_ffff_ffff_ffff);
    assert_eq!(new_node_key(Side::Bid, u64::MAX, u64::MAX), (u64::MAX as u128) << 64);
}

#[test]
fn ask_key_keeps_the_sequence_number() {
    assert_eq!(new_node_key(Side::Ask, 5, 1), (5u128 << 64) | 1);
    assert_eq!(new_node_key(Side::Ask, 0, 0), 0);
    assert_eq!(new_node_key(Side::Ask, u64::MAX, u64::MAX), u128::MAX);
}

#[test]
fn higher_price_gives_larger_key() {
    let seqs = [0u64, 1, 77, u64::MAX - 1, u64::MAX];
    let prices = [0u64, 1, 2, 1 << 40, u64::MAX - 1, u64::MAX];
    for side in [Side::Bid, Side::Ask] {
        for i in 0..prices.len() {
            for j in (i + 1)..prices.len() {
                for s1 in seqs {
                    for s2 in seqs {
                        assert!(
                            new_node_key(side, prices[i], s1) < new_node_key(side, prices[j], s2)
                        );
                    }
                }
            }
        }
    }
}

#[test]
fn earlier_bid_of_one_price_has_larger_key() {
    let seqs = [0u64, 1, 2, 1000, u64::MAX - 1, u64::MAX];
    for price in [0u64, 5, u64::MAX] {
        for i in 0..seqs.len() {
            for j in (i + 1)..seqs.len() {
                let (earlier, later) = (seqs[i], seqs[j]);
                assert!(
                    new_node_key(Side::Bid, price, earlier) > new_node_key(Side::Bid, price, later)
                );
                assert!(
                    new_node_key(Side::Ask, price, earlier) < new_node_key(Side::Ask, price, later)
                );
            }
        }
    }
}

#[test]
fn price_is_the_upper_half_of_the_key() {
    assert_eq!(price_data(0), 0);
    assert_eq!(price_data(u128::MAX), u64::MAX);
    assert_eq!(price_data((42u128 << 64) | 7), 42);
    assert_eq!(price_data(new_node_key(Side::Bid, 15, 1)), 15);
    assert_eq!(price_data(new_node_key(Side::Ask, 15, 1)), 15);
}

#[test]
fn shared_prefix_counts_leading_common_bits() {
    assert_eq!(shared_prefix(0, 0), 128);
    assert_eq!(shared_prefix(u128::MAX, u128::MAX), 128);
    assert_eq!(shared_prefix(0, 1), 127);
    assert_eq!(shared_prefix(0, 1 << 127), 0);
    assert_eq!(shared_prefix(0, u128::MAX), 0);
    assert_eq!(shared_prefix(5 << 64, 4 << 64), 63);
    assert_eq!(shared_prefix(0b1010, 0b1000), 126);
    assert_eq!(shared_prefix(1 << 100, (1 << 100) | (1 << 3)), 124);
}

#[test]
fn crit_bit_counts_from_the_top() {
    assert!(crit_bit(1 << 127, 0));
    assert!(!crit_bit(1 << 127, 1));
    assert!(crit_bit(1, 127));
    assert!(!crit_bit(1, 126));
    assert!(crit_bit(5 << 64, 63));
    assert!(!crit_bit(4 << 64, 63));
    assert!(crit_bit(4 << 64, 61));
    for pos in 0..128u32 {
        assert!(crit_bit(u128::MAX, pos));
        assert!(!crit_bit(0, pos));
    }
}

#[test]
fn tags_and_sides_have_their_numbers() {
    assert_eq!(Side::Bid.to_u8(), 0);
    assert_eq!(Side::Ask.to_u8(), 1);
    assert_eq!(Side::from_u8(0), Some(Side::Bid));
    assert_eq!(Side::from_u8(1), Some(Side::Ask));
    assert_eq!(Side::from_u8(2), None);
    let tags = [
        NodeTag::Uninitialized,
        NodeTag::InnerNode,
        NodeTag::LeafNode,
        NodeTag::FreeNode,
        NodeTag::LastFreeNode,
    ];
    for (number, tag) in tags.iter().enumerate() {
        assert_eq!(tag.to_u8(), number as u8);
        assert_eq!(NodeTag::from_u8(number as u8), Some(*tag));
    }
    for number in 5..=255u8 {
        assert_eq!(NodeTag::from_u8(number), None);
    }
    assert_eq!(OrderTreeType::Bids.to_u8(), 0);
    assert_eq!(OrderTreeType::Asks.to_u8(), 1);
    assert_eq!(OrderTreeType::from_u8(0), Some(OrderTreeType::Bids));
    assert_eq!(OrderTreeType::from_u8(1), Some(OrderTreeType::Asks));
    assert_eq!(OrderTreeType::from_u8(2), None);
    assert_eq!(OrderTreeType::Bids.side(), Side::Bid);
    assert_eq!(OrderTreeType::Asks.side(), Side::Ask);
}
