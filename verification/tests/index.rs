use hash_trie::file_map::FileMap;
use hash_trie::node::Node;
use hash_trie::storage::HashTreeStorage;
use hash_trie::trie::HashTrie;
use rand::thread_rng;
use rand::Rng;

fn sorted(mut values: Vec<u64>) -> Vec<u64> {
    values.sort();
    values
}

fn sorted_set(values: &[u64]) -> Vec<u64> {
    let mut values = values.to_vec();
    values.sort();
    values.dedup();
    values
}

fn brute_force(stored: &[u64], needle: u64, max_distance: u8) -> Vec<u64> {
    let mut found: Vec<u64> = sorted_set(stored)
        .into_iter()
        .filter(|h| (h ^ needle).count_ones() <= max_distance as u32)
        .collect();
    found.sort();
    found
}

#[test]
fn empty_trie_enumerates_nothing() {
    let trie: HashTrie<Vec<Node>> = HashTrie::new(());
    assert_eq!(trie.haystack, vec![Node { zero: 0, one: 0 }]);
    assert_eq!(trie.hashes().collect(), Vec::<u64>::new());
    assert_eq!(trie.hashes().next(), None);
    let none: HashTrie<Vec<Node>> = HashTrie::from_iter(&[]);
    assert_eq!(none.hashes().collect(), Vec::<u64>::new());
}

#[test]
fn empty_trie_has_nothing_similar() {
    let trie: HashTrie<Vec<Node>> = HashTrie::new(());
    assert_eq!(trie.similar(0, 0).collect(), Vec::<u64>::new());
    assert_eq!(trie.similar(0, 64).collect(), Vec::<u64>::new());
    assert_eq!(trie.similar(u64::MAX, 255).next(), None);
}

#[test]
fn second_insert_reports_the_duplicate() {
    let mut trie: HashTrie<Vec<Node>> = HashTrie::new(());
    assert!(!trie.insert(766));
    let after_first = trie.haystack.clone();
    assert!(trie.insert(766));
    assert_eq!(trie.haystack, after_first);
    assert_eq!(HashTreeStorage::len(&trie.haystack), 65);
    assert!(trie.insert(766));
    assert_eq!(trie.hashes().collect(), vec![766]);
}

#[test]
fn random_second_inserts_change_nothing() {
    let mut rng = thread_rng();
    let input: Vec<u64> = std::iter::repeat_with(|| rng.gen()).take(200).collect();
    let mut trie: HashTrie<Vec<Node>> = HashTrie::new(());
    for hash in input.iter() {
        let had = sorted(trie.hashes().collect()).binary_search(hash).is_ok();
        assert_eq!(trie.insert(*hash), had);
        let count = HashTreeStorage::len(&trie.haystack);
        assert!(trie.insert(*hash));
        assert_eq!(HashTreeStorage::len(&trie.haystack), count);
    }
}

#[test]
fn insert_appends_one_node_for_each_missing_bit() {
    let mut trie: HashTrie<Vec<Node>> = HashTrie::new(());
    assert_eq!(HashTreeStorage::len(&trie.haystack), 1);
    assert!(!trie.insert(0));
    assert_eq!(HashTreeStorage::len(&trie.haystack), 65);
    assert!(!trie.insert(1));
    assert_eq!(HashTreeStorage::len(&trie.haystack), 129);
    assert!(!trie.insert(2));
    assert_eq!(HashTreeStorage::len(&trie.haystack), 192);
    assert!(!trie.insert(1 << 63));
    assert_eq!(HashTreeStorage::len(&trie.haystack), 193);
    assert!(trie.insert(2));
    assert_eq!(HashTreeStorage::len(&trie.haystack), 193);
}

#[test]
fn insert_links_each_new_node_below_the_one_before() {
    let mut trie: HashTrie<Vec<Node>> = HashTrie::new(());
    trie.insert(0b101);
    assert_eq!(trie.haystack.len(), 65);
    assert_eq!(trie.haystack[0], Node { zero: 0, one: 1 });
    assert_eq!(trie.haystack[1], Node { zero: 2, one: 0 });
    assert_eq!(trie.haystack[2], Node { zero: 0, one: 3 });
    for index in 3..64 {
        assert_eq!(trie.haystack[index], Node { zero: index as u32 + 1, one: 0 });
    }
    assert_eq!(trie.haystack[64], Node { zero: 0, one: 0 });

    trie.insert(0b001);
    assert_eq!(trie.haystack.len(), 127);
    assert_eq!(trie.haystack[2], Node { zero: 65, one: 3 });
    assert_eq!(trie.haystack[65], Node { zero: 66, one: 0 });
    assert_eq!(trie.haystack[126], Node { zero: 0, one: 0 });
    for index in 0..65 {
        if index != 2 {
            let expected = if index == 0 {
                Node { zero: 0, one: 1 }
            } else if index == 1 {
                Node { zero: 2, one: 0 }
            } else if index == 64 {
                Node { zero: 0, one: 0 }
            } else {
                Node { zero: index as u32 + 1, one: 0 }
            };
            assert_eq!(trie.haystack[index], expected);
        }
    }
}

#[test]
fn no_edge_ever_leads_to_the_root() {
    let mut rng = thread_rng();
    let input: Vec<u64> = std::iter::repeat_with(|| rng.gen()).take(300).collect();
    let mut trie: HashTrie<Vec<Node>> = HashTrie::new(());
    let mut before = trie.haystack.clone();
    for hash in input.iter() {
        trie.insert(*hash);
        for (index, node) in before.iter().enumerate() {
            let now = trie.haystack[index];
            assert!(node.zero == 0 || now.zero == node.zero);
            assert!(node.one == 0 || now.one == node.one);
        }
        for (index, node) in trie.haystack.iter().enumerate() {
            assert!(node.zero == 0 || node.zero as usize > index);
            assert!(node.one == 0 || node.one as usize > index);
        }
        before = trie.haystack.clone();
    }
    assert!(trie.is_well_formed());
}

#[test]
fn search_reports_where_the_path_leaves_the_trie() {
    let trie: HashTrie<Vec<Node>> = HashTrie::new(());
    assert_eq!(trie.search(0), (0, 0));
    assert_eq!(trie.search(u64::MAX), (0, 0));

    let trie: HashTrie<Vec<Node>> = HashTrie::from_iter(&[0]);
    assert_eq!(trie.search(0), (64, 64));
    assert_eq!(trie.search(1), (0, 0));
    assert_eq!(trie.search(2), (1, 1));
    assert_eq!(trie.search(0b100), (2, 2));
    assert_eq!(trie.search(1 << 63), (63, 63));
    assert_eq!(trie.search(u64::MAX), (0, 0));

    let trie: HashTrie<Vec<Node>> = HashTrie::from_iter(&[0, 1 << 63]);
    assert_eq!(trie.search(1 << 63), (64, 65));
    assert_eq!(trie.search(0), (64, 64));
}

#[test]
fn insertion_order_does_not_matter() {
    let mut rng = thread_rng();
    let input: Vec<u64> = std::iter::repeat_with(|| rng.gen()).take(300).collect();
    let mut reversed = input.clone();
    reversed.reverse();
    let mut rotated = input.clone();
    rotated.rotate_left(97);

    let first: HashTrie<Vec<Node>> = HashTrie::from_iter(&input);
    let second: HashTrie<Vec<Node>> = HashTrie::from_iter(&reversed);
    let third: HashTrie<Vec<Node>> = HashTrie::from_iter(&rotated);

    let expected = sorted_set(&input);
    assert_eq!(sorted(first.hashes().collect()), expected);
    assert_eq!(sorted(second.hashes().collect()), expected);
    assert_eq!(sorted(third.hashes().collect()), expected);
    assert_eq!(first.haystack.len(), second.haystack.len());
    assert_eq!(first.haystack.len(), third.haystack.len());
}

#[test]
fn repeated_values_are_stored_once() {
    let trie: HashTrie<Vec<Node>> = HashTrie::from_iter(&[3, 3, 9, 3, 9]);
    assert_eq!(sorted(trie.hashes().collect()), vec![3, 9]);
    assert_eq!(sorted(trie.similar(3, 64).collect()), vec![3, 9]);
}

#[test]
fn dense_values_are_all_enumerated() {
    let input: Vec<u64> = (0..512).collect();
    let trie: HashTrie<Vec<Node>> = HashTrie::from_iter(&input);
    assert_eq!(sorted(trie.hashes().collect()), input);
    let high: Vec<u64> = (0..512).map(|v: u64| v << 55).collect();
    let trie: HashTrie<Vec<Node>> = HashTrie::from_iter(&high);
    assert_eq!(sorted(trie.hashes().collect()), sorted(high));
}

#[test]
fn next_yields_each_value_once() {
    let input = [1, 54, 0, u64::MAX, 766];
    let trie: HashTrie<Vec<Node>> = HashTrie::from_iter(&input);
    let mut all = trie.hashes();
    let mut seen: Vec<u64> = Vec::new();
    while let Some(hash) = all.next() {
        assert!(!seen.contains(&hash));
        seen.push(hash);
    }
    assert_eq!(all.next(), None);
    assert_eq!(sorted(seen), vec![0, 1, 54, 766, u64::MAX]);

    let mut near = trie.similar(0, 1);
    let mut seen: Vec<u64> = Vec::new();
    while let Some(hash) = near.next() {
        assert!(!seen.contains(&hash));
        seen.push(hash);
    }
    assert_eq!(near.next(), None);
    assert_eq!(sorted(seen), vec![0, 1]);
}

#[test]
fn similar_agrees_with_brute_force() {
    let mut rng = thread_rng();
    for _ in 0..20 {
        let needle: u64 = rng.gen();
        let mut input: Vec<u64> = std::iter::repeat_with(|| rng.gen()).take(100).collect();
        for _ in 0..100 {
            let flips: u32 = rng.gen_range(0..6);
            let mut near = needle;
            for _ in 0..flips {
                near ^= 1u64 << rng.gen_range(0..64);
            }
            input.push(near);
        }
        let trie: HashTrie<Vec<Node>> = HashTrie::from_iter(&input);
        for max_distance in [0u8, 1, 2, 3, 5, 8, 31, 63, 64, 65, 255] {
            let found = trie.similar(needle, max_distance).collect();
            let expected = brute_force(&input, needle, max_distance);
            assert_eq!(found.len(), expected.len());
            assert_eq!(sorted(found), expected);
        }
    }
}

#[test]
fn similar_with_no_budget_is_the_exact_match() {
    let input = [
        0b1001, 0b0100, 0b0010, 0b0101, 0b0110, 0b0001, 0b0000, 0b1111, 0b0011,
    ];
    let trie: HashTrie<Vec<Node>> = HashTrie::from_iter(&input);
    assert_eq!(trie.similar(0b0010, 0).collect(), vec![0b0010]);
    assert_eq!(trie.similar(0b1111, 0).collect(), vec![0b1111]);
    assert_eq!(trie.similar(0b1000, 0).collect(), Vec::<u64>::new());
    assert_eq!(trie.similar(u64::MAX, 0).collect(), Vec::<u64>::new());
}

#[test]
fn similar_with_a_full_budget_is_everything() {
    let mut rng = thread_rng();
    let input: Vec<u64> = std::iter::repeat_with(|| rng.gen()).take(200).collect();
    let trie: HashTrie<Vec<Node>> = HashTrie::from_iter(&input);
    let expected = sorted_set(&input);
    for max_distance in [64u8, 65, 128, 255] {
        assert_eq!(sorted(trie.similar(rng.gen(), max_distance).collect()), expected);
        assert_eq!(sorted(trie.similar(0, max_distance).collect()), expected);
    }
    let pair: HashTrie<Vec<Node>> = HashTrie::from_iter(&[0, u64::MAX]);
    assert_eq!(pair.similar(0, 63).collect(), vec![0]);
    assert_eq!(sorted(pair.similar(0, 64).collect()), vec![0, u64::MAX]);
}

#[test]
fn similar_starts_afresh_each_time() {
    let input = [
        0b1001, 0b0100, 0b0010, 0b0101, 0b0110, 0b0001, 0b0000, 0b1111, 0b0011,
    ];
    let trie: HashTrie<Vec<Node>> = HashTrie::from_iter(&input);
    let mut first = trie.similar(0b0010, 2);
    let one = first.next();
    assert!(one.is_some());
    let second = sorted(trie.similar(0b0010, 2).collect());
    let mut rest = first.collect();
    rest.push(one.unwrap());
    assert_eq!(sorted(rest), second);
    assert_eq!(second, brute_force(&input, 0b0010, 2));
}

#[test]
fn snapshot_round_trip() {
    let mut rng = thread_rng();
    let input: Vec<u64> = std::iter::repeat_with(|| rng.gen()).take(50).collect();
    let trie: HashTrie<Vec<Node>> = HashTrie::from_iter(&input);
    let bytes = trie.write_out();
    assert_eq!(bytes.len(), 8 * trie.haystack.len());
    let back = HashTrie::read_in(&bytes);
    assert_eq!(back.haystack, trie.haystack);
    assert_eq!(sorted(back.hashes().collect()), sorted_set(&input));
    assert_eq!(back.write_out(), bytes);
}

#[test]
fn snapshot_holds_the_records_in_table_order() {
    let trie: HashTrie<Vec<Node>> = HashTrie::from_iter(&[1]);
    let bytes = trie.write_out();
    assert_eq!(bytes.len(), 8 * 65);
    assert_eq!(bytes[0..8], [0, 0, 0, 0, 1, 0, 0, 0]);
    assert_eq!(bytes[8..16], [2, 0, 0, 0, 0, 0, 0, 0]);
    assert_eq!(bytes[16..24], [3, 0, 0, 0, 0, 0, 0, 0]);
    assert_eq!(bytes[63 * 8..64 * 8], [64, 0, 0, 0, 0, 0, 0, 0]);
    assert_eq!(bytes[64 * 8..65 * 8], [0; 8]);
    let empty: HashTrie<Vec<Node>> = HashTrie::new(());
    assert_eq!(empty.write_out(), vec![0; 8]);
}

#[test]
fn read_in_leaves_out_a_partial_record() {
    let trie: HashTrie<Vec<Node>> = HashTrie::from_iter(&[54, 766]);
    let mut bytes = trie.write_out();
    bytes.extend_from_slice(&[1, 2, 3]);
    assert_eq!(HashTrie::read_in(&bytes).haystack, trie.haystack);
    bytes.truncate(8 * 10 + 5);
    assert_eq!(HashTrie::read_in(&bytes).haystack, trie.haystack[0..10].to_vec());
    assert_eq!(HashTrie::read_in(&[]).haystack, Vec::<Node>::new());
    assert_eq!(HashTrie::read_in(&[1, 2, 3, 4, 5, 6, 7]).haystack, Vec::<Node>::new());
}

#[test]
fn read_in_does_not_judge_the_structure() {
    let bytes = [0, 0, 0, 0, 9, 0, 0, 0];
    let trie = HashTrie::read_in(&bytes);
    assert_eq!(trie.haystack, vec![Node { zero: 0, one: 9 }]);
    assert!(!trie.is_walkable());
    assert!(!trie.is_well_formed());
}

#[test]
fn built_tries_are_well_formed() {
    let mut rng = thread_rng();
    let input: Vec<u64> = std::iter::repeat_with(|| rng.gen()).take(100).collect();
    let trie: HashTrie<Vec<Node>> = HashTrie::from_iter(&input);
    assert!(trie.is_walkable());
    assert!(trie.is_well_formed());
    let fresh: HashTrie<Vec<Node>> = HashTrie::new(());
    assert!(fresh.is_walkable());
    assert!(fresh.is_well_formed());
}

#[test]
fn tables_without_a_root_are_refused() {
    let trie: HashTrie<Vec<Node>> = HashTrie { haystack: Vec::new() };
    assert!(!trie.is_walkable());
    assert!(!trie.is_well_formed());
}

#[test]
fn child_outside_the_table_is_refused() {
    let trie = HashTrie { haystack: vec![Node { zero: 1, one: 0 }, Node { zero: 0, one: 2 }] };
    assert!(!trie.is_walkable());
    assert!(!trie.is_well_formed());
    let trie = HashTrie { haystack: vec![Node { zero: 1, one: 0 }, Node { zero: 0, one: 0 }] };
    assert!(trie.is_walkable());
    assert!(trie.is_well_formed());
}

#[test]
fn shared_child_is_refused_as_a_tree() {
    let shared = HashTrie {
        haystack: vec![
            Node { zero: 1, one: 2 },
            Node { zero: 3, one: 0 },
            Node { zero: 3, one: 0 },
            Node { zero: 0, one: 0 },
        ],
    };
    assert!(shared.is_walkable());
    assert!(!shared.is_well_formed());
    let twice = HashTrie { haystack: vec![Node { zero: 1, one: 1 }, Node { zero: 0, one: 0 }] };
    assert!(twice.is_walkable());
    assert!(!twice.is_well_formed());
    let looped = HashTrie { haystack: vec![Node { zero: 1, one: 0 }, Node { zero: 1, one: 0 }] };
    assert!(looped.is_walkable());
    assert!(!looped.is_well_formed());
}

#[test]
fn paths_that_end_early_store_nothing() {
    let stub = HashTrie { haystack: vec![Node { zero: 1, one: 0 }, Node { zero: 0, one: 0 }] };
    assert_eq!(stub.hashes().collect(), Vec::<u64>::new());
    assert_eq!(stub.similar(0, 64).collect(), Vec::<u64>::new());
    assert_eq!(stub.search(0), (1, 1));
    let mut grown = stub;
    assert!(!grown.insert(0));
    assert_eq!(grown.haystack.len(), 65);
    assert_eq!(grown.hashes().collect(), vec![0]);
}

#[test]
fn byte_table_starts_with_a_root() {
    let store = FileMap::new(Vec::new());
    assert_eq!(store.bytes, vec![0; 8]);
    assert_eq!(store.len(), 1);
    assert!(!store.is_empty());
    assert_eq!(store.get(0), Node { zero: 0, one: 0 });
    let short = FileMap::new(vec![1, 2, 3, 4, 5]);
    assert_eq!(short.bytes, vec![0; 8]);
    assert_eq!(short.len(), 1);
}

#[test]
fn byte_table_keeps_what_it_is_opened_with() {
    let bytes = vec![2, 0, 0, 0, 1, 0, 0, 0, 0, 0, 0, 0, 0, 0, 0, 0, 7, 7, 7];
    let store = FileMap::new(bytes.clone());
    assert_eq!(store.bytes, bytes);
    assert_eq!(store.len(), 2);
    assert_eq!(store.get(0), Node { zero: 2, one: 1 });
    assert_eq!(store.get(1), Node { zero: 0, one: 0 });
}

#[test]
fn byte_table_reads_what_was_written() {
    let mut store = FileMap::new(Vec::new());
    assert_eq!(store.push(Node { zero: 5, one: 6 }), 1);
    assert_eq!(store.len(), 2);
    assert_eq!(store.push(Node { zero: 0x0102_0304, one: 0 }), 2);
    assert_eq!(store.len(), 3);
    assert_eq!(store.get(1), Node { zero: 5, one: 6 });
    assert_eq!(store.get(2), Node { zero: 0x0102_0304, one: 0 });
    store.set(1, Node { zero: u32::MAX, one: 2 });
    assert_eq!(store.get(0), Node { zero: 0, one: 0 });
    assert_eq!(store.get(1), Node { zero: u32::MAX, one: 2 });
    assert_eq!(store.get(2), Node { zero: 0x0102_0304, one: 0 });
    assert_eq!(
        store.bytes,
        vec![
            0, 0, 0, 0, 0, 0, 0, 0, 255, 255, 255, 255, 2, 0, 0, 0, 4, 3, 2, 1, 0, 0, 0, 0
        ]
    );
}

#[test]
fn byte_table_writes_over_a_partial_record() {
    let mut store = FileMap::new(vec![0, 0, 0, 0, 0, 0, 0, 0, 9, 9, 9]);
    assert_eq!(store.len(), 1);
    assert_eq!(store.push(Node { zero: 1, one: 2 }), 1);
    assert_eq!(store.len(), 2);
    assert_eq!(store.bytes, vec![0, 0, 0, 0, 0, 0, 0, 0, 1, 0, 0, 0, 2, 0, 0, 0]);
    assert_eq!(store.get(1), Node { zero: 1, one: 2 });
}

#[test]
fn both_tables_grow_alike() {
    let mut rng = thread_rng();
    let input: Vec<u64> = std::iter::repeat_with(|| rng.gen()).take(100).collect();
    let mut in_memory: HashTrie<Vec<Node>> = HashTrie::new(());
    let mut in_bytes: HashTrie<FileMap> = HashTrie::new(Vec::new());
    for hash in input.iter() {
        assert_eq!(in_memory.insert(*hash), in_bytes.insert(*hash));
    }
    assert_eq!(in_bytes.haystack.bytes, in_memory.write_out());
    assert_eq!(HashTrie::read_in(&in_bytes.haystack.bytes).haystack, in_memory.haystack);
    assert!(in_bytes.is_well_formed());
    for needle in input.iter().take(10) {
        assert_eq!(
            sorted(in_bytes.similar(*needle, 24).collect()),
            sorted(in_memory.similar(*needle, 24).collect())
        );
        assert_eq!(in_bytes.search(*needle), in_memory.search(*needle));
    }
}

#[test]
fn vec_table_starts_with_a_root() {
    let mut store: Vec<Node> = HashTreeStorage::new(());
    assert_eq!(store, vec![Node { zero: 0, one: 0 }]);
    assert_eq!(HashTreeStorage::len(&store), 1);
    assert!(!HashTreeStorage::is_empty(&store));
    assert_eq!(HashTreeStorage::push(&mut store, Node { zero: 3, one: 4 }), 1);
    assert_eq!(HashTreeStorage::len(&store), 2);
    assert_eq!(HashTreeStorage::push(&mut store, Node { zero: 0, one: 0 }), 2);
    assert_eq!(HashTreeStorage::len(&store), 3);
    assert_eq!(HashTreeStorage::get(&store, 2), Node { zero: 0, one: 0 });
    assert_eq!(store.pop(), Some(Node { zero: 0, one: 0 }));
    assert_eq!(HashTreeStorage::get(&store, 1), Node { zero: 3, one: 4 });
    HashTreeStorage::set(&mut store, 0, Node { zero: 1, one: 0 });
    assert_eq!(store, vec![Node { zero: 1, one: 0 }, Node { zero: 3, one: 4 }]);
    let none: Vec<Node> = Vec::new();
    assert!(HashTreeStorage::is_empty(&none));
}

#[test]
fn push_returns_the_index_of_the_new_node() {
    let mut in_bytes = FileMap::new(Vec::new());
    let mut in_memory: Vec<Node> = HashTreeStorage::new(());
    for n in 1..200u32 {
        let node = Node { zero: n, one: n.wrapping_mul(2_654_435_761) };
        let before = in_bytes.bytes.clone();
        assert_eq!(in_bytes.push(node), n);
        assert_eq!(HashTreeStorage::push(&mut in_memory, node), n);
        assert_eq!(in_bytes.len(), n + 1);
        assert_eq!(HashTreeStorage::len(&in_memory), n + 1);
        assert_eq!(in_bytes.get(n), node);
        assert_eq!(HashTreeStorage::get(&in_memory, n), node);
        assert_eq!(in_bytes.bytes.len(), 8 * (n as usize + 1));
        assert_eq!(in_bytes.bytes[..8 * n as usize], before[..]);
        assert_eq!(in_bytes.bytes[8 * n as usize..8 * n as usize + 4], node.zero.to_le_bytes());
        assert_eq!(in_bytes.bytes[8 * n as usize + 4..], node.one.to_le_bytes());
    }
    for n in 1..200u32 {
        assert_eq!(in_bytes.get(n), HashTreeStorage::get(&in_memory, n));
    }
}
