use rkyv::api::{access, from_bytes, serialize_and_resolve, to_bytes};
use rkyv::error::{AccessError, SerializeError};
use rkyv::ser::Writer;
use rkyv::slice::{serialize_slice, serialize_slice_bulk, serialize_slice_elementwise};
use rkyv::string::archived_str;
use rkyv::tuple::second_position;
use rkyv::vec::{archived_get, archived_len};

#[test]
fn bytes() {
    let value: Vec<u8> = vec![10, 20, 40, 80];

    let bytes = to_bytes(&value, 1024).unwrap();
    let root = access::<Vec<u8>>(&bytes).unwrap();
    assert_eq!(archived_len::<u8>(&bytes, root), 4);
    for (i, x) in value.iter().enumerate() {
        assert_eq!(archived_get::<u8>(&bytes, root, i), *x);
    }

    let deserialized: Vec<u8> = from_bytes(&bytes).unwrap();
    assert_eq!(value, deserialized);
}

#[test]
fn array_vec() {
    let value: Vec<i32> = vec![10, 20, 40, 80];

    let bytes = to_bytes(&value, 1024).unwrap();
    let root = access::<Vec<i32>>(&bytes).unwrap();
    let seen: Vec<i32> = (0..4).map(|i| archived_get::<i32>(&bytes, root, i)).collect();
    assert_eq!(seen.as_slice(), &[10, 20, 40, 80]);

    let deserialized: Vec<i32> = from_bytes(&bytes).unwrap();
    assert_eq!(value, deserialized);
}

#[test]
fn slice_vec() {
    let mut backing = [0i32; 10];
    backing[0] = 10;
    backing[1] = 20;
    backing[2] = 40;
    backing[3] = 80;
    let value = &backing[..4];

    let mut writer = Writer::new(1024);
    let pos = serialize_slice(value, &mut writer).unwrap();
    let bytes = writer.into_bytes();
    assert_eq!(pos, 0);
    let seen: Vec<i32> = bytes
        .chunks(4)
        .map(|c| i32::from_le_bytes([c[0], c[1], c[2], c[3]]))
        .collect();
    assert_eq!(seen.as_slice(), &[10, 20, 40, 80]);
}

#[test]
fn tiny_vec() {
    let value: Vec<i32> = vec![10, 20, 40, 80];

    let bytes = to_bytes(&value, 1024).unwrap();
    let root = access::<Vec<i32>>(&bytes).unwrap();
    let seen: Vec<i32> = (0..4).map(|i| archived_get::<i32>(&bytes, root, i)).collect();
    assert_eq!(seen.as_slice(), &[10, 20, 40, 80]);

    let deserialized: Vec<i32> = from_bytes(&bytes).unwrap();
    assert_eq!(value, deserialized);
}

#[test]
fn list_of_four_byte_integers_has_no_overhead() {
    let value: Vec<u32> = vec![10, 20, 40, 80];
    let mut writer = Writer::new(1024);
    let pos = serialize_slice(value.as_slice(), &mut writer).unwrap();
    assert_eq!(pos, 0);
    assert_eq!(writer.pos(), 4 * 4);
    let bytes = to_bytes(&value, 1024).unwrap();
    assert_eq!(bytes.len(), 4 * 4 + 4 + 4);
    assert_eq!(&bytes[..16], &[10, 0, 0, 0, 20, 0, 0, 0, 40, 0, 0, 0, 80, 0, 0, 0]);
    assert_eq!(&bytes[20..], &[4, 0, 0, 0]);
}

#[test]
fn bulk_copy_and_elementwise_give_the_same_bytes() {
    let value: Vec<u64> = vec![1, 0xffff_ffff_ffff_ffff, 0x0102_0304_0506_0708, 7];
    for lead in 0..9usize {
        let mut bulk = Writer::new(1024);
        let mut elementwise = Writer::new(1024);
        bulk.pad(lead).unwrap();
        elementwise.pad(lead).unwrap();
        let bulk_pos = serialize_slice_bulk(value.as_slice(), &mut bulk).unwrap();
        let elementwise_pos =
            serialize_slice_elementwise(value.as_slice(), &mut elementwise).unwrap();
        assert_eq!(bulk_pos, elementwise_pos);
        assert_eq!(bulk_pos % 8, 0);
        assert_eq!(bulk.into_bytes(), elementwise.into_bytes());
    }
}

#[test]
fn list_of_strings_round_trips() {
    let value: Vec<Option<String>> =
        vec![Some(String::from("hello")), None, Some(String::from("wörld"))];
    let bytes = to_bytes(&value, 1024).unwrap();
    let back: Vec<Option<String>> = from_bytes(&bytes).unwrap();
    assert_eq!(back, value);
}

#[test]
fn nested_values_round_trip() {
    let value: Vec<(u8, Vec<(String, Option<i64>)>)> = vec![
        (1, vec![(String::from("a"), Some(-5)), (String::from(""), None)]),
        (2, vec![]),
        (3, vec![(String::from("zzz"), Some(i64::MIN))]),
    ];
    let bytes = to_bytes(&value, 4096).unwrap();
    let back: Vec<(u8, Vec<(String, Option<i64>)>)> = from_bytes(&bytes).unwrap();
    assert_eq!(back, value);

    let boxed: Box<Vec<bool>> = Box::new(vec![true, false, true]);
    let bytes = to_bytes(&boxed, 64).unwrap();
    let back: Box<Vec<bool>> = from_bytes(&bytes).unwrap();
    assert_eq!(back, boxed);
}

#[test]
fn primitives_round_trip() {
    assert_eq!(to_bytes(&0x0102_0304u32, 16).unwrap(), vec![4, 3, 2, 1]);
    assert_eq!(to_bytes(&-2i32, 16).unwrap(), vec![0xfe, 0xff, 0xff, 0xff]);
    assert_eq!(to_bytes(&0x0102u16, 16).unwrap(), vec![2, 1]);
    assert_eq!(to_bytes(&true, 16).unwrap(), vec![1]);
    assert_eq!(to_bytes(&(), 16).unwrap(), vec![0]);
    assert_eq!(from_bytes::<u64>(&to_bytes(&u64::MAX, 16).unwrap()), Ok(u64::MAX));
    assert_eq!(from_bytes::<i64>(&to_bytes(&i64::MIN, 16).unwrap()), Ok(i64::MIN));
    assert_eq!(from_bytes::<u8>(&[9]), Ok(9));
    assert_eq!(from_bytes::<bool>(&[0]), Ok(false));
}

#[test]
fn fields_are_read_in_place() {
    let value: (u8, String) = (7, String::from("hello"));
    let bytes = to_bytes(&value, 256).unwrap();
    let root = access::<(u8, String)>(&bytes).unwrap();
    assert_eq!(from_bytes::<u8>(&bytes[..root + 1]), Ok(7));
    let second = second_position::<u8, String>(&bytes, root);
    assert_eq!(second, root + 4);
    assert_eq!(archived_str(&bytes, second), "hello");
    let text = archived_str(&bytes, second);
    let start = text.as_ptr() as usize;
    let base = bytes.as_ptr() as usize;
    assert!(base <= start && start + 5 <= base + bytes.len());
}

#[test]
fn writer_rejects_what_does_not_fit() {
    let value: Vec<u32> = vec![10, 20, 40, 80];
    assert_eq!(to_bytes(&value, 24).map(|b| b.len()), Ok(24));
    assert_eq!(to_bytes(&value, 23), Err(SerializeError::Writer));
    assert_eq!(to_bytes(&String::from("hello"), 15), Err(SerializeError::Writer));
    assert_eq!(to_bytes(&String::from("hello"), 16).map(|b| b.len()), Ok(16));

    let mut writer = Writer::new(3);
    assert_eq!(writer.write(&[1, 2]), Ok(()));
    assert_eq!(writer.write(&[3, 4]), Err(SerializeError::Writer));
    assert_eq!(writer.pos(), 2);
    assert_eq!(writer.align(4), Err(SerializeError::Writer));
    assert_eq!(writer.write(&[3]), Ok(()));
    assert_eq!(writer.into_bytes(), vec![1, 2, 3]);
}

#[test]
fn writer_aligns_with_zero_bytes() {
    let mut writer = Writer::new(64);
    writer.write(&[1, 2, 3]).unwrap();
    assert_eq!(writer.align(4), Ok(4));
    assert_eq!(writer.align(4), Ok(4));
    writer.write(&[9]).unwrap();
    assert_eq!(writer.align(8), Ok(8));
    assert_eq!(writer.as_slice(), &[1, 2, 3, 0, 9, 0, 0, 0]);
    let pos = serialize_and_resolve(&5u16, &mut writer).unwrap();
    assert_eq!(pos, 8);
}

#[test]
fn malformed_buffers_are_rejected() {
    assert_eq!(from_bytes::<u32>(&[1, 2, 3]), Err(AccessError::OutOfBounds));
    assert_eq!(from_bytes::<u32>(&[0, 1, 2, 3, 4]), Err(AccessError::Misaligned));
    assert_eq!(from_bytes::<bool>(&[2]), Err(AccessError::InvalidTag));
    assert_eq!(from_bytes::<Option<u8>>(&[2, 0]), Err(AccessError::InvalidTag));

    let mut bytes = to_bytes(&String::from("hello"), 64).unwrap();
    bytes[1] = 0xff;
    assert_eq!(from_bytes::<String>(&bytes), Err(AccessError::InvalidUtf8));

    let mut bytes = to_bytes(&String::from("hello"), 64).unwrap();
    let root = bytes.len() - 8;
    bytes[root] = 8;
    assert_eq!(from_bytes::<String>(&bytes), Err(AccessError::InvalidPointer));

    let mut bytes = to_bytes(&vec![1u32, 2, 3], 64).unwrap();
    let root = bytes.len() - 8;
    bytes[root + 4] = 200;
    assert_eq!(from_bytes::<Vec<u32>>(&bytes), Err(AccessError::OutOfBounds));

    let bytes = to_bytes(&vec![1u32, 2, 3], 64).unwrap();
    assert!(from_bytes::<Vec<u32>>(&bytes[..bytes.len() - 1]).is_err());
}

#[test]
fn text_is_archived_as_its_utf8_bytes() {
    let bytes = to_bytes(&String::from("héllo"), 64).unwrap();
    assert_eq!(&bytes[..6], "héllo".as_bytes());
    assert_eq!(&bytes[8..12], &[0xf8, 0xff, 0xff, 0xff]);
    assert_eq!(&bytes[12..], &[6, 0, 0, 0]);
    assert_eq!(from_bytes::<String>(&bytes), Ok(String::from("héllo")));
}
