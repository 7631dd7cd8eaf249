use hash_trie::bits::{distance, get_bit, with_bit};
use hash_trie::node::{needs_root, put_record, record_count, record_offset, u32ize, Node};
use rand::thread_rng;
use rand::Rng;

#[test]
fn record_is_little_endian() {
    let node = Node { zero: 0x0403_0201, one: 0xfffe_fdfc };
    assert_eq!(node.to_bytes(), [1, 2, 3, 4, 0xfc, 0xfd, 0xfe, 0xff]);
}

#[test]
fn record_of_small_indices() {
    assert_eq!(Node { zero: 0, one: 0 }.to_bytes(), [0; 8]);
    assert_eq!(Node { zero: 1, one: 256 }.to_bytes(), [1, 0, 0, 0, 0, 1, 0, 0]);
    assert_eq!(
        Node { zero: u32::MAX, one: 65536 }.to_bytes(),
        [255, 255, 255, 255, 0, 0, 1, 0]
    );
}

#[test]
fn record_is_decoded_at_its_offset() {
    let bytes = [9, 9, 9, 9, 9, 9, 9, 9, 1, 2, 3, 4, 0xfc, 0xfd, 0xfe, 0xff, 7];
    assert_eq!(
        Node::from_bytes(&bytes, 1),
        Node { zero: 0x0403_0201, one: 0xfffe_fdfc }
    );
    assert_eq!(
        Node::from_bytes(&bytes, 0),
        Node { zero: 0x0909_0909, one: 0x0909_0909 }
    );
}

#[test]
fn record_round_trip() {
    let mut rng = thread_rng();
    for _ in 0..1000 {
        let node = Node { zero: rng.gen(), one: rng.gen() };
        assert_eq!(Node::from_bytes(&node.to_bytes(), 0), node);
    }
}

#[test]
fn record_matches_the_platform_encoding() {
    let mut rng = thread_rng();
    for _ in 0..1000 {
        let node = Node { zero: rng.gen(), one: rng.gen() };
        let bytes = node.to_bytes();
        assert_eq!(bytes[0..4], node.zero.to_le_bytes());
        assert_eq!(bytes[4..8], node.one.to_le_bytes());
    }
}

#[test]
fn record_count_discards_a_partial_record() {
    assert_eq!(record_count(0), 0);
    assert_eq!(record_count(7), 0);
    assert_eq!(record_count(8), 1);
    assert_eq!(record_count(17), 2);
    assert_eq!(record_count(800), 100);
}

#[test]
fn u32ize_keeps_the_value() {
    assert_eq!(u32ize(0), 0);
    assert_eq!(u32ize(65), 65);
    assert_eq!(u32ize(u32::MAX as usize), u32::MAX);
}

#[test]
fn default_node_has_no_child() {
    let node = Node::default();
    assert_eq!(node, Node { zero: 0, one: 0 });
    assert!(node.is_leaf());
    assert!(!Node { zero: 0, one: 3 }.is_leaf());
    assert!(!Node { zero: 3, one: 0 }.is_leaf());
}

#[test]
fn branch_and_linked_pick_the_side() {
    let node = Node { zero: 4, one: 9 };
    assert_eq!(node.branch(false), 4);
    assert_eq!(node.branch(true), 9);
    assert_eq!(node.linked(false, 7), Node { zero: 7, one: 9 });
    assert_eq!(node.linked(true, 7), Node { zero: 4, one: 7 });
}

#[test]
fn bits_are_counted_from_the_least_significant() {
    assert!(get_bit(1, 0));
    assert!(!get_bit(1, 1));
    assert!(get_bit(0b0100, 2));
    assert!(get_bit(1 << 63, 63));
    assert!(!get_bit(u64::MAX >> 1, 63));
    assert_eq!(with_bit(0, 0), 1);
    assert_eq!(with_bit(0b0001, 2), 0b0101);
    assert_eq!(with_bit(0b0101, 2), 0b0101);
    assert_eq!(with_bit(0, 63), 1 << 63);
}

#[test]
fn distance_counts_differing_bits() {
    assert_eq!(distance(0, 0), 0);
    assert_eq!(distance(0b0010, 0b0110), 1);
    assert_eq!(distance(0b0010, 0b1001), 3);
    assert_eq!(distance(0, u64::MAX), 64);
    assert_eq!(distance(1 << 63, 1), 2);
    let mut rng = thread_rng();
    for _ in 0..1000 {
        let a: u64 = rng.gen();
        let b: u64 = rng.gen();
        assert_eq!(distance(a, b) as u32, (a ^ b).count_ones());
        assert_eq!(distance(a, b), distance(b, a));
        assert_eq!(distance(a, a), 0);
    }
}

#[test]
fn record_is_written_at_its_offset() {
    let mut bytes = [9u8; 19];
    put_record(&mut bytes, 1, Node { zero: 0x0403_0201, one: 5 });
    assert_eq!(
        bytes,
        [9, 9, 9, 9, 9, 9, 9, 9, 1, 2, 3, 4, 5, 0, 0, 0, 9, 9, 9]
    );
    put_record(&mut bytes, 0, Node { zero: 0, one: u32::MAX });
    assert_eq!(
        bytes,
        [0, 0, 0, 0, 255, 255, 255, 255, 1, 2, 3, 4, 5, 0, 0, 0, 9, 9, 9]
    );
    assert_eq!(Node::from_bytes(&bytes, 0), Node { zero: 0, one: u32::MAX });
    assert_eq!(Node::from_bytes(&bytes, 1), Node { zero: 0x0403_0201, one: 5 });
}

#[test]
fn files_without_a_whole_record_need_a_root() {
    assert!(needs_root(0));
    assert!(needs_root(1));
    assert!(needs_root(7));
    assert!(!needs_root(8));
    assert!(!needs_root(9));
    assert!(!needs_root(u64::MAX));
}

#[test]
fn records_start_at_eight_times_their_number() {
    assert_eq!(record_offset(0), 0);
    assert_eq!(record_offset(1), 8);
    assert_eq!(record_offset(65), 520);
    assert_eq!(record_offset(u32::MAX), 34_359_738_360);
}
