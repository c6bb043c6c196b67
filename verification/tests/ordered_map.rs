use rkyv::api::{access, from_bytes, to_bytes};
use rkyv::btree::{entries, eq, find, find_counted, get, OrderedMap};
use rkyv::btree::{set_contains, set_from_sorted, OrderedSet};
use rkyv::btree_node::node_count;
use rkyv::error::AccessError;
use rkyv::order::{bytes_order, ArchiveOrd, KeyOrder};

fn sample() -> OrderedMap<String, u32> {
    OrderedMap::from_sorted(
        vec![String::from("a"), String::from("b"), String::from("c")],
        vec![1, 2, 3],
    )
    .unwrap()
}

#[test]
fn ordered_map_of_three_entries() {
    let map = sample();
    let bytes = to_bytes(&map, 4096).unwrap();
    let root = access::<OrderedMap<String, u32>>(&bytes).unwrap();

    let (keys, values) = entries::<String, u32>(&bytes, root);
    assert_eq!(keys, vec![String::from("a"), String::from("b"), String::from("c")]);
    assert_eq!(values, vec![1, 2, 3]);

    assert_eq!(get::<String, u32>(&bytes, root, &String::from("b")), Some(2));
    assert_eq!(get::<String, u32>(&bytes, root, &String::from("z")), None);
    assert_eq!(find::<String, u32>(&bytes, root, &String::from("z")), None);
    assert!(eq::<String, u32>(&bytes, root, &map));
}

#[test]
fn ordered_map_finds_every_key_and_no_other() {
    let n: u32 = 100;
    let keys: Vec<u32> = (0..n).map(|i| 3 * i + 1).collect();
    let values: Vec<u64> = keys.iter().map(|k| u64::from(*k) * 7).collect();
    let map = OrderedMap::from_sorted(keys.clone(), values.clone()).unwrap();
    let bytes = to_bytes(&map, 1 << 20).unwrap();
    let root = access::<OrderedMap<u32, u64>>(&bytes).unwrap();
    for probe in 0..(3 * n + 3) {
        let expected = keys.iter().position(|k| *k == probe).map(|i| values[i]);
        assert_eq!(get::<u32, u64>(&bytes, root, &probe), expected);
    }
    let (seen, _) = entries::<u32, u64>(&bytes, root);
    assert_eq!(seen, keys);
    assert!(seen.windows(2).all(|w| w[0] < w[1]));
    let back: OrderedMap<u32, u64> = from_bytes(&bytes).unwrap();
    assert_eq!(back.keys(), &keys);
    assert_eq!(back.values(), &values);
}

#[test]
fn unsorted_entries_are_no_map() {
    assert!(OrderedMap::<u32, u32>::from_sorted(vec![2, 1], vec![0, 0]).is_none());
    assert!(OrderedMap::<u32, u32>::from_sorted(vec![1, 1], vec![0, 0]).is_none());
    assert!(OrderedMap::<u32, u32>::from_sorted(vec![1], vec![]).is_none());
}

#[test]
fn empty_map_round_trips() {
    let map: OrderedMap<u32, u32> = OrderedMap::new();
    let bytes = to_bytes(&map, 64).unwrap();
    assert_eq!(bytes.len(), 8);
    let root = access::<OrderedMap<u32, u32>>(&bytes).unwrap();
    assert_eq!(get::<u32, u32>(&bytes, root, &5), None);
}

#[test]
fn tree_has_one_node_for_each_chunk() {
    assert_eq!(node_count(0), 0);
    assert_eq!(node_count(1), 1);
    assert_eq!(node_count(5), 1);
    assert_eq!(node_count(6), 2);
    assert_eq!(node_count(7), 3);
    assert_eq!(node_count(15), 3);
    assert_eq!(node_count(17), 5);

    for n in [1usize, 5, 6, 7, 15, 16, 40] {
        let keys: Vec<u32> = (0..n as u32).collect();
        let values: Vec<u32> = keys.iter().map(|k| k * 2).collect();
        let map = OrderedMap::from_sorted(keys, values).unwrap();
        let bytes = to_bytes(&map, 1 << 16).unwrap();
        assert_eq!(bytes.len(), node_count(n) * 56 + 8);
        let back: OrderedMap<u32, u32> = from_bytes(&bytes).unwrap();
        assert_eq!(back.len(), n);
    }
}

#[test]
fn single_node_is_laid_out_as_children_count_keys_values() {
    let map = OrderedMap::from_sorted(vec![7u32, 9], vec![1u8, 2]).unwrap();
    let bytes = to_bytes(&map, 1024).unwrap();
    assert_eq!(bytes.len(), 48 + 8);
    assert_eq!(&bytes[0..8], &[0; 8]);
    assert_eq!(&bytes[8..12], &[2, 0, 0, 0]);
    assert_eq!(&bytes[16..24], &[7, 0, 0, 0, 9, 0, 0, 0]);
    assert_eq!(&bytes[24..36], &[0; 12]);
    assert_eq!(&bytes[36..38], &[1, 2]);
    assert_eq!(&bytes[48..52], &[0xd0, 0xff, 0xff, 0xff]);
    assert_eq!(&bytes[52..56], &[2, 0, 0, 0]);
}

#[test]
fn malformed_trees_are_rejected() {
    let map = OrderedMap::from_sorted(vec![1u32, 2, 3], vec![10u32, 20, 30]).unwrap();
    let good = to_bytes(&map, 1024).unwrap();
    assert!(access::<OrderedMap<u32, u32>>(&good).is_ok());

    let mut unsorted = good.clone();
    unsorted[16] = 9;
    assert_eq!(access::<OrderedMap<u32, u32>>(&unsorted), Err(AccessError::InvalidStructure));

    let mut miscounted = good.clone();
    let root = good.len() - 8;
    miscounted[root + 4] = 4;
    assert_eq!(access::<OrderedMap<u32, u32>>(&miscounted), Err(AccessError::InvalidStructure));

    let mut overfull = good.clone();
    overfull[8] = 6;
    assert_eq!(access::<OrderedMap<u32, u32>>(&overfull), Err(AccessError::InvalidStructure));

    let mut forward = good.clone();
    forward[0] = 8;
    assert_eq!(access::<OrderedMap<u32, u32>>(&forward), Err(AccessError::InvalidStructure));

    assert_eq!(
        access::<OrderedMap<u32, u32>>(&good[..good.len() - 1]),
        Err(AccessError::Misaligned)
    );
    assert_eq!(access::<OrderedMap<u32, u32>>(&good[..4]), Err(AccessError::OutOfBounds));
}

#[test]
fn ordered_sets_hold_their_keys() {
    let keys: Vec<String> = ["alpha", "beta", "delta", "gamma", "omega", "pi", "rho"]
        .iter()
        .map(|s| s.to_string())
        .collect();
    let set = set_from_sorted(keys.clone()).unwrap();
    assert!(set_from_sorted(vec![2u8, 1]).is_none());
    let bytes = to_bytes(&set, 4096).unwrap();
    let root = access::<OrderedSet<String>>(&bytes).unwrap();
    for k in &keys {
        assert!(set_contains(&bytes, root, k));
    }
    assert!(!set_contains(&bytes, root, &String::from("beth")));
    assert!(!set_contains(&bytes, root, &String::from("")));
    assert!(!set_contains(&bytes, root, &String::from("zeta")));
    assert!(eq::<String, ()>(&bytes, root, &set));
    let other = set_from_sorted(keys[1..].to_vec()).unwrap();
    assert!(!eq::<String, ()>(&bytes, root, &other));
    let back: OrderedSet<String> = from_bytes(&bytes).unwrap();
    assert_eq!(back.keys(), &keys);
}

#[test]
fn maps_that_differ_are_not_equal() {
    let map = sample();
    let bytes = to_bytes(&map, 4096).unwrap();
    let root = access::<OrderedMap<String, u32>>(&bytes).unwrap();
    let other = OrderedMap::from_sorted(
        vec![String::from("a"), String::from("b"), String::from("c")],
        vec![1, 2, 4],
    )
    .unwrap();
    assert!(!eq::<String, u32>(&bytes, root, &other));
    let shorter =
        OrderedMap::from_sorted(vec![String::from("a"), String::from("b")], vec![1, 2]).unwrap();
    assert!(!eq::<String, u32>(&bytes, root, &shorter));
    let (keys, values) = map.into_entries();
    assert_eq!(keys.len(), 3);
    assert_eq!(values, vec![1, 2, 3]);
}

#[test]
fn strings_are_ordered_as_in_a_dictionary() {
    assert_eq!(bytes_order(b"", b""), KeyOrder::Same);
    assert_eq!(bytes_order(b"", b"a"), KeyOrder::Before);
    assert_eq!(bytes_order(b"ab", b"a"), KeyOrder::After);
    assert_eq!(bytes_order(b"ab", b"b"), KeyOrder::Before);
    assert_eq!(bytes_order(b"ba", b"ab"), KeyOrder::After);
    assert_eq!(String::from("é").key_order(&String::from("z")), KeyOrder::After);
    assert_eq!(5u32.key_order(&7), KeyOrder::Before);
    assert_eq!((-5i64).key_order(&-7), KeyOrder::After);
    assert_eq!(().key_order(&()), KeyOrder::Same);
}

#[test]
fn lookups_visit_no_more_nodes_than_the_tree_is_high() {
    let n: u32 = 100;
    let keys: Vec<u32> = (0..n).map(|i| 2 * i).collect();
    let values: Vec<u32> = keys.clone();
    let map = OrderedMap::from_sorted(keys, values).unwrap();
    let bytes = to_bytes(&map, 1 << 16).unwrap();
    let root = access::<OrderedMap<u32, u32>>(&bytes).unwrap();
    let mut deepest = 0;
    for probe in 0..(2 * n + 2) {
        let (found, visited) = find_counted::<u32, u32>(&bytes, root, &probe);
        assert_eq!(found.is_some(), probe % 2 == 0 && probe < 2 * n);
        assert!(1 <= visited && visited <= 5);
        deepest = deepest.max(visited);
    }
    assert_eq!(deepest, 5);

    let empty: OrderedMap<u32, u32> = OrderedMap::new();
    let bytes = to_bytes(&empty, 64).unwrap();
    assert_eq!(find_counted::<u32, u32>(&bytes, 0, &1), (None, 0));
}
