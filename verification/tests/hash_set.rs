use rkyv::api::access;
use rkyv::hash_set::{deserialize_set, serialize_set, set_eq, StringSet};
use rkyv::hash_table::{archived_len, find, HashedMap};
use rkyv::ser::Writer;

fn sample() -> StringSet {
    let mut value = StringSet::new();
    value.insert(String::from("foo"));
    value.insert(String::from("bar"));
    value.insert(String::from("baz"));
    value.insert(String::from("bat"));
    value
}

#[test]
fn index_set() {
    let value = sample();

    let mut writer = Writer::new(4096);
    let root = serialize_set(&value, &mut writer).unwrap();
    let bytes = writer.into_bytes();

    assert_eq!(value.len(), archived_len::<String, ()>(&bytes, root));
    for k in value.items().iter() {
        let (found, _) = find::<String, ()>(&bytes, root, k);
        assert!(found.is_some());
    }
    assert!(find::<String, ()>(&bytes, root, &String::from("qux")).0.is_none());

    let deserialized = deserialize_set(&bytes, root);
    assert_eq!(deserialized.len(), 4);
    for k in value.items().iter() {
        assert_eq!(deserialized.get(k.as_str()), Some(k));
    }
    assert!(set_eq(&bytes, root, &value));
    assert!(set_eq(&bytes, root, &deserialized));
}

#[test]
fn validate_index_set() {
    let value = sample();
    let mut writer = Writer::new(4096);
    serialize_set(&value, &mut writer).unwrap();
    let bytes = writer.into_bytes();
    access::<HashedMap<String, ()>>(&bytes).expect("failed to validate archived index set");
}

#[test]
fn sets_that_differ_are_not_equal() {
    let value = sample();
    let mut writer = Writer::new(4096);
    let root = serialize_set(&value, &mut writer).unwrap();
    let bytes = writer.into_bytes();

    let mut other = sample();
    other.insert(String::from("qux"));
    assert!(!set_eq(&bytes, root, &other));

    let mut swapped = StringSet::new();
    swapped.insert(String::from("foo"));
    swapped.insert(String::from("bar"));
    swapped.insert(String::from("baz"));
    swapped.insert(String::from("qux"));
    assert!(!set_eq(&bytes, root, &swapped));
}
