use rkyv::api::{access, from_bytes, to_bytes};
use rkyv::hash_table::{archived_len, capacity_for, find, get, HashedMap};
use rkyv::error::AccessError;
use rkyv::hash::{hash_bytes, ArchiveHash};

#[test]
fn hashed_map_finds_every_key_and_no_other() {
    let n: u32 = 200;
    let keys: Vec<u32> = (0..n).map(|i| 5 * i + 2).collect();
    let values: Vec<String> = keys.iter().map(|k| format!("v{}", k)).collect();
    let map = HashedMap::from_entries(keys.clone(), values.clone()).unwrap();
    assert_eq!(map.len(), 200);
    assert_eq!(map.capacity(), 229);

    let bytes = to_bytes(&map, 1 << 20).unwrap();
    let root = access::<HashedMap<u32, String>>(&bytes).unwrap();
    assert_eq!(archived_len::<u32, String>(&bytes, root), 200);
    for probe in 0..(5 * n + 5) {
        let expected = keys.iter().position(|k| *k == probe).map(|i| values[i].clone());
        let (found, probes) = find::<u32, String>(&bytes, root, &probe);
        assert!(probes <= 229);
        assert_eq!(found.is_some(), expected.is_some());
        assert_eq!(get::<u32, String>(&bytes, root, &probe), expected);
        assert_eq!(map.get(&probe), expected.as_ref());
    }
    let back: HashedMap<u32, String> = from_bytes(&bytes).unwrap();
    for (k, v) in keys.iter().zip(values.iter()) {
        assert_eq!(back.get(k), Some(v));
    }
}

#[test]
fn capacity_is_length_over_load_factor_rounded_up() {
    assert_eq!(capacity_for(0), Some(0));
    assert_eq!(capacity_for(1), Some(2));
    assert_eq!(capacity_for(7), Some(8));
    assert_eq!(capacity_for(8), Some(10));
    assert_eq!(capacity_for(14), Some(16));
    assert_eq!(capacity_for(15), Some(18));
}

#[test]
fn duplicate_keys_are_no_map() {
    assert!(HashedMap::<u32, u32>::from_entries(vec![1, 2, 1], vec![0, 0, 0]).is_none());
    assert!(HashedMap::<u32, u32>::from_entries(vec![1, 2], vec![0]).is_none());
}

#[test]
fn empty_hashed_map_round_trips() {
    let map = HashedMap::<String, u32>::from_entries(vec![], vec![]).unwrap();
    let bytes = to_bytes(&map, 64).unwrap();
    assert_eq!(bytes.len(), 8);
    let root = access::<HashedMap<String, u32>>(&bytes).unwrap();
    assert_eq!(get::<String, u32>(&bytes, root, &String::from("x")), None);
}

#[test]
fn corrupt_table_is_rejected() {
    let map = HashedMap::<u32, u32>::from_entries(vec![1, 2, 3], vec![10, 20, 30]).unwrap();
    let mut bytes = to_bytes(&map, 4096).unwrap();
    assert!(access::<HashedMap<u32, u32>>(&bytes).is_ok());
    for b in bytes.iter_mut().take(8) {
        *b = 7;
    }
    assert!(access::<HashedMap<u32, u32>>(&bytes).is_err());
}

#[test]
fn hashes_are_those_of_the_bytes() {
    assert_eq!(hash_bytes(b""), 0xcbf2_9ce4_8422_2325);
    assert_eq!(hash_bytes(b"a"), 0xaf63_dc4c_8601_ec8c);
    assert_eq!(hash_bytes(b"foobar"), 0x8594_4171_f739_67e8);
    assert_eq!(String::from("foobar").hash_value(), 0x8594_4171_f739_67e8);
    assert_eq!(0x61u8.hash_value(), 0xaf63_dc4c_8601_ec8c);
    assert_eq!(1u32.hash_value(), hash_bytes(&[1, 0, 0, 0]));
    assert_eq!((-1i32).hash_value(), hash_bytes(&[0xff; 4]));
    assert!(String::from("a").same(&String::from("a")));
    assert!(!String::from("a").same(&String::from("b")));
}

#[test]
fn entries_stand_in_the_bucket_of_their_hash_or_after_it() {
    let keys: Vec<u32> = (0..50).collect();
    let values: Vec<u8> = keys.iter().map(|k| *k as u8).collect();
    let map = HashedMap::from_entries(keys, values).unwrap();
    let cap = map.capacity();
    assert_eq!(cap, 58);
    let slots = map.into_slots();
    assert_eq!(slots.iter().filter(|s| s.is_some()).count(), 50);
    for (b, slot) in slots.iter().enumerate() {
        if let Some((k, v)) = slot {
            assert_eq!(*k as u8, *v);
            let mut c = (k.hash_value() % cap as u64) as usize;
            while c != b {
                assert!(slots[c].is_some());
                c = (c + 1) % cap;
            }
        }
    }
}

#[test]
fn table_of_one_bucket_is_marker_key_value() {
    let map = HashedMap::from_entries(vec![7u32], vec![9u16]).unwrap();
    assert_eq!(map.capacity(), 2);
    let bytes = to_bytes(&map, 1024).unwrap();
    assert_eq!(bytes.len(), 2 * 16 + 8);
    let full: Vec<&[u8]> = bytes[..32].chunks(16).filter(|b| b[0] == 1).collect();
    assert_eq!(full.len(), 1);
    assert_eq!(full[0], &[1, 0, 0, 0, 0, 0, 0, 0, 7, 0, 0, 0, 9, 0, 0, 0]);
    assert_eq!(bytes[..32].chunks(16).filter(|b| b.iter().all(|x| *x == 0)).count(), 1);
    assert_eq!(&bytes[36..], &[1, 0, 0, 0]);
}

#[test]
fn malformed_tables_are_rejected() {
    let map = HashedMap::<u32, u32>::from_entries(vec![1, 2, 3], vec![10, 20, 30]).unwrap();
    let good = to_bytes(&map, 4096).unwrap();
    let root = good.len() - 8;

    let mut miscounted = good.clone();
    miscounted[root + 4] = 2;
    assert_eq!(access::<HashedMap<u32, u32>>(&miscounted), Err(AccessError::InvalidStructure));

    let mut marker = good.clone();
    marker[0] = 5;
    assert_eq!(access::<HashedMap<u32, u32>>(&marker), Err(AccessError::InvalidStructure));

    let mut emptied = good.clone();
    let full = (0..4).find(|b| good[b * 16] == 1).unwrap();
    emptied[full * 16] = 0;
    assert_eq!(access::<HashedMap<u32, u32>>(&emptied), Err(AccessError::InvalidStructure));

    assert_eq!(
        access::<HashedMap<u32, u32>>(&good[..good.len() - 2]),
        Err(AccessError::Misaligned)
    );
    assert_eq!(access::<HashedMap<u32, u32>>(&[0, 0, 0, 0]), Err(AccessError::OutOfBounds));
}
