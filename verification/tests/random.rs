use rand::Rng;
use rkyv::api::{access, from_bytes, to_bytes};
use rkyv::bench::rng;
use rkyv::btree::{self, OrderedMap};
use rkyv::hash_table::{self, HashedMap};

fn random_string(r: &mut impl Rng) -> String {
    let len = r.gen_range(0..12);
    (0..len).map(|_| r.gen_range('a'..='z')).collect()
}

#[test]
fn random_ordered_maps_round_trip() {
    let mut r = rng();
    for round in 0..40usize {
        let n = round * 7 % 61;
        let mut keys: Vec<String> = (0..n).map(|_| random_string(&mut r)).collect();
        keys.sort();
        keys.dedup();
        let values: Vec<Vec<u32>> = keys
            .iter()
            .map(|_| (0..r.gen_range(0..4)).map(|_| r.gen()).collect())
            .collect();
        let map = OrderedMap::from_sorted(keys.clone(), values.clone()).unwrap();
        let bytes = to_bytes(&map, 1 << 20).unwrap();
        let root = access::<OrderedMap<String, Vec<u32>>>(&bytes).unwrap();
        assert_eq!(btree::archived_len::<String, Vec<u32>>(&bytes, root), keys.len());
        for (k, v) in keys.iter().zip(values.iter()) {
            assert_eq!(btree::get::<String, Vec<u32>>(&bytes, root, k).as_ref(), Some(v));
        }
        for _ in 0..20 {
            let probe = random_string(&mut r);
            let expected = keys.binary_search(&probe).ok().map(|i| values[i].clone());
            assert_eq!(btree::get::<String, Vec<u32>>(&bytes, root, &probe), expected);
        }
        let back: OrderedMap<String, Vec<u32>> = from_bytes(&bytes).unwrap();
        assert_eq!(back.keys(), &keys);
        assert_eq!(back.values(), &values);
    }
}

#[test]
fn random_hashed_maps_round_trip() {
    let mut r = rng();
    for round in 0..40usize {
        let n = round * 11 % 97;
        let mut keys: Vec<String> = (0..n).map(|_| random_string(&mut r)).collect();
        keys.sort();
        keys.dedup();
        let values: Vec<i64> = keys.iter().map(|_| r.gen()).collect();
        let map = HashedMap::from_entries(keys.clone(), values.clone()).unwrap();
        assert_eq!(map.len(), keys.len());
        assert_eq!(Some(map.capacity()), hash_table::capacity_for(keys.len()));
        let bytes = to_bytes(&map, 1 << 20).unwrap();
        let root = access::<HashedMap<String, i64>>(&bytes).unwrap();
        for (k, v) in keys.iter().zip(values.iter()) {
            assert_eq!(hash_table::get::<String, i64>(&bytes, root, k), Some(*v));
            assert_eq!(map.get(k), Some(v));
        }
        for _ in 0..20 {
            let probe = random_string(&mut r);
            let expected = keys.binary_search(&probe).ok().map(|i| values[i]);
            let (found, probes) = hash_table::find::<String, i64>(&bytes, root, &probe);
            assert!(probes <= map.capacity());
            assert_eq!(found.is_some(), expected.is_some());
            assert_eq!(hash_table::get::<String, i64>(&bytes, root, &probe), expected);
        }
        let back: HashedMap<String, i64> = from_bytes(&bytes).unwrap();
        for (k, v) in keys.iter().zip(values.iter()) {
            assert_eq!(back.get(k), Some(v));
        }
    }
}

#[test]
fn random_bytes_are_checked_without_harm() {
    let mut r = rng();
    for _ in 0..300 {
        let len = r.gen_range(0..96);
        let bytes: Vec<u8> = (0..len).map(|_| r.gen_range(0..4)).collect();
        if let Ok(v) = from_bytes::<Vec<String>>(&bytes) {
            assert!(v.len() <= bytes.len());
        }
        if let Ok(m) = from_bytes::<OrderedMap<u8, u8>>(&bytes) {
            assert!(m.keys().windows(2).all(|w| w[0] < w[1]));
        }
        if let Ok(m) = from_bytes::<HashedMap<u8, u8>>(&bytes) {
            assert!(m.len() <= m.capacity());
        }
        let _ = from_bytes::<Option<(u16, Box<u32>)>>(&bytes);
    }
}
