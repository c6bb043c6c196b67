use std::rc::Rc;

use rkyv::api::to_bytes;
use rkyv::bench::rng;
use rkyv::boxed::{check_pointer, deserialize_boxed_slice, write_pointer};
use rkyv::rc::{deserialize_shared, serialize_shared, SharePool, UnsharePool};
use rkyv::ser::Writer;

fn count_of(haystack: &[u8], needle: &[u8]) -> usize {
    haystack.windows(needle.len()).filter(|w| *w == needle).count()
}

#[test]
fn shared_string_is_archived_once() {
    let shared = Rc::new(String::from("hello"));
    let first = Rc::clone(&shared);
    let second = Rc::clone(&shared);

    let mut writer = Writer::new(1024);
    let mut pool = SharePool::new();
    let first_pos =
        serialize_shared(&*first, Rc::as_ptr(&first) as u64, &mut pool, &mut writer).unwrap();
    let len_after_first = writer.pos();
    let second_pos =
        serialize_shared(&*second, Rc::as_ptr(&second) as u64, &mut pool, &mut writer).unwrap();
    assert_eq!(first_pos, second_pos);
    assert_eq!(writer.pos(), len_after_first);
    assert_eq!(pool.len(), 1);

    writer.align(4).unwrap();
    let root = writer.pos();
    let mut place = writer.place(8).unwrap();
    let mut field = place.field(0, 4);
    write_pointer(&mut field, first_pos);
    place.put(0, &field);
    let mut field = place.field(4, 4);
    write_pointer(&mut field, second_pos);
    place.put(4, &field);
    writer.commit(&place).unwrap();
    let bytes = writer.into_bytes();

    assert_eq!(count_of(&bytes, b"hello"), 1);

    let a = check_pointer::<String>(&bytes, root).unwrap();
    let b = check_pointer::<String>(&bytes, root + 4).unwrap();
    assert_eq!(a, b);
    let mut handles = UnsharePool::<String>::new();
    let x = deserialize_shared(&bytes, a, &mut handles);
    let y = deserialize_shared(&bytes, b, &mut handles);
    assert_eq!(*x, "hello");
    assert!(Rc::ptr_eq(&x, &y));
    assert_eq!(handles.len(), 1);
    assert_eq!(handles.index_of(a), Some(0));
    assert_eq!(handles.index_of(a + 1), None);
    assert_eq!(Rc::strong_count(&x), 3);
}

#[test]
fn values_with_different_identities_are_archived_apart() {
    let one = String::from("hello");
    let other = String::from("hello");
    let mut writer = Writer::new(1024);
    let mut pool = SharePool::new();
    let first = serialize_shared(&one, 1, &mut pool, &mut writer).unwrap();
    let second = serialize_shared(&other, 2, &mut pool, &mut writer).unwrap();
    assert_ne!(first, second);
    assert_eq!(pool.len(), 2);
    assert_eq!(pool.get(1), Some(first));
    assert_eq!(pool.get(2), Some(second));
    assert_eq!(pool.get(3), None);
    assert_eq!(count_of(writer.as_slice(), b"hello"), 2);

    let bytes = writer.into_bytes();
    let mut handles = UnsharePool::<String>::new();
    let x = deserialize_shared(&bytes, first, &mut handles);
    let y = deserialize_shared(&bytes, second, &mut handles);
    assert!(!Rc::ptr_eq(&x, &y));
    assert_eq!(x, y);
}

#[test]
fn boxed_slice_is_deserialized() {
    let value: Vec<u16> = vec![3, 1, 2];
    let bytes = to_bytes(&value, 64).unwrap();
    let boxed = deserialize_boxed_slice::<u16>(&bytes, bytes.len() - 8).unwrap();
    assert_eq!(&*boxed, &[3, 1, 2]);
}

#[test]
fn benchmark_generator_is_always_the_same() {
    let a = rng();
    let b = rng();
    assert!(a == b);
    assert!(a == rand_pcg::Lcg64Xsh32::new(3141592653, 5897932384));
    assert!(a != rand_pcg::Lcg64Xsh32::new(3141592654, 5897932384));
    let mut first = rng();
    let mut second = rng();
    let xs: Vec<u32> = (0..8).map(|_| rand::RngCore::next_u32(&mut first)).collect();
    let ys: Vec<u32> = (0..8).map(|_| rand::RngCore::next_u32(&mut second)).collect();
    assert_eq!(xs, ys);
}
