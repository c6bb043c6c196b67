use rkyv::api::{from_bytes, to_bytes};
use rkyv::error::{AccessError, DeserializeError, SerializeError};
use rkyv::layout::{layout_array, layout_of, Layout, LayoutError};
use rkyv::metadata::{archived_slice_metadata, archived_str_metadata, pointer_metadata};
use rkyv::niche::NonZero;
use rkyv::option::ArchivedOption;
use rkyv::option_impl::archived_option;
use rkyv::ser::Writer;
use rkyv::with::{
    archive_with, read_with, Boxed, BoxedInline, Immutable, Inline, MapOption, Niche, Skip,
    UnixTimestampError,
};

#[test]
fn mapped_option_is_a_tag_and_the_wrapped_value() {
    let value: u32 = 0x0403_0201;
    let field: Option<&u32> = Some(&value);
    let mut writer = Writer::new(64);
    let pos = archive_with::<MapOption<Inline>, Option<&u32>>(&field, &mut writer).unwrap();
    assert_eq!(pos, 0);
    assert_eq!(writer.as_slice(), &[1, 0, 0, 0, 1, 2, 3, 4]);

    let none: Option<&u32> = None;
    let mut writer = Writer::new(64);
    archive_with::<MapOption<Inline>, Option<&u32>>(&none, &mut writer).unwrap();
    assert_eq!(writer.as_slice(), &[0, 0, 0, 0, 0, 0, 0, 0]);
}

#[test]
fn mapped_boxed_option_round_trips() {
    let field: Option<String> = Some(String::from("hello"));
    let mut writer = Writer::new(64);
    let pos = archive_with::<MapOption<Boxed>, Option<String>>(&field, &mut writer).unwrap();
    let bytes = writer.into_bytes();
    assert_eq!(read_with::<MapOption<Boxed>, Option<String>>(&bytes, pos), Ok(field));

    let field: Option<String> = None;
    let mut writer = Writer::new(64);
    let pos = archive_with::<MapOption<Boxed>, Option<String>>(&field, &mut writer).unwrap();
    let bytes = writer.into_bytes();
    assert_eq!(bytes, vec![0u8; 8]);
    assert_eq!(read_with::<MapOption<Boxed>, Option<String>>(&bytes, pos), Ok(None));
    assert_eq!(
        read_with::<MapOption<Boxed>, Option<String>>(&[3, 0, 0, 0, 0, 0, 0, 0], 0),
        Err(AccessError::InvalidTag)
    );
}

#[test]
fn boxed_and_plain_box_give_the_same_bytes() {
    let value = String::from("hello");
    let mut writer = Writer::new(64);
    archive_with::<Boxed, String>(&value, &mut writer).unwrap();
    let with_wrapper = writer.into_bytes();
    let mut writer = Writer::new(64);
    archive_with::<BoxedInline, &String>(&&value, &mut writer).unwrap();
    let with_reference = writer.into_bytes();
    let plain = to_bytes(&Box::new(value.clone()), 64).unwrap();
    assert_eq!(with_wrapper, plain);
    assert_eq!(with_reference, plain);
    assert_eq!(plain.len(), 5 + 3 + 8 + 4);
    assert_eq!(read_with::<Boxed, String>(&plain, plain.len() - 4), Ok(value));
}

#[test]
fn skipped_field_takes_no_room_and_comes_back_as_default() {
    let mut writer = Writer::new(64);
    writer.write(&[7]).unwrap();
    let pos = archive_with::<Skip, u32>(&99, &mut writer).unwrap();
    assert_eq!(pos, 1);
    assert_eq!(writer.as_slice(), &[7]);
    assert_eq!(read_with::<Skip, u32>(writer.as_slice(), pos), Ok(0));
    assert_eq!(read_with::<Skip, String>(&[], 0), Ok(String::new()));
}

#[test]
fn niche_archives_an_optional_number_in_four_bytes() {
    assert!(NonZero::new(0).is_none());
    let five = NonZero::new(5).unwrap();
    assert_eq!(five.get(), 5);

    let mut writer = Writer::new(64);
    let pos = archive_with::<Niche, Option<NonZero>>(&Some(five), &mut writer).unwrap();
    assert_eq!(writer.as_slice(), &[5, 0, 0, 0]);
    let back = read_with::<Niche, Option<NonZero>>(writer.as_slice(), pos).unwrap();
    assert_eq!(back.map(|n| n.get()), Some(5));

    let mut writer = Writer::new(64);
    let pos = archive_with::<Niche, Option<NonZero>>(&None, &mut writer).unwrap();
    assert_eq!(writer.as_slice(), &[0, 0, 0, 0]);
    let back = read_with::<Niche, Option<NonZero>>(writer.as_slice(), pos).unwrap();
    assert!(back.is_none());
    assert_eq!(
        read_with::<Niche, Option<NonZero>>(&[0, 0, 0], 0).map(|n| n.map(|n| n.get())),
        Err(AccessError::OutOfBounds)
    );
}

#[test]
fn wrappers_fail_when_the_writer_is_full() {
    let value = String::from("hello");
    let mut writer = Writer::new(19);
    assert_eq!(archive_with::<Boxed, String>(&value, &mut writer), Err(SerializeError::Writer));
    let mut writer = Writer::new(20);
    assert_eq!(archive_with::<Boxed, String>(&value, &mut writer), Ok(16));
}

#[test]
fn archived_option_is_read_in_place() {
    let bytes = to_bytes(&Some(0x0102u16), 16).unwrap();
    assert_eq!(bytes, vec![1, 0, 2, 1]);
    match archived_option::<u16>(&bytes, 0) {
        ArchivedOption::Present(pos) => {
            assert_eq!(pos, 2);
            assert_eq!(from_bytes::<u16>(&bytes[..pos + 2]), Ok(0x0102));
        }
        ArchivedOption::Absent => panic!("the option holds a value"),
    }
    let bytes = to_bytes(&None::<u16>, 16).unwrap();
    assert!(archived_option::<u16>(&bytes, 0).is_none());
}

#[test]
fn immutable_gives_its_value() {
    let wrapped = Immutable::new(String::from("fixed"));
    assert_eq!(wrapped.value(), "fixed");
}

#[test]
fn metadata_is_the_number_of_elements_or_bytes() {
    assert_eq!(archived_slice_metadata(&[7u64, 8, 9]), Some(3));
    assert_eq!(archived_slice_metadata::<u8>(&[]), Some(0));
    assert_eq!(archived_str_metadata("héllo"), Some(6));
    assert_eq!(pointer_metadata(6), 6);
}

#[test]
fn layouts_are_computed_or_refused() {
    assert_eq!(layout_of::<u32>(), Layout { size: 4, align: 4 });
    assert_eq!(layout_array::<u32>(3), Ok(Layout { size: 12, align: 4 }));
    assert_eq!(layout_array::<u8>(0), Ok(Layout { size: 0, align: 1 }));
    assert_eq!(layout_array::<()>(usize::MAX), Ok(Layout { size: 0, align: 1 }));
    assert_eq!(layout_array::<u64>(usize::MAX / 8), Err(LayoutError));
    assert_eq!(layout_array::<u8>(isize::MAX as usize), Ok(Layout { size: isize::MAX as usize, align: 1 }));
    assert_eq!(layout_array::<u8>(isize::MAX as usize + 1), Err(LayoutError));
    assert_eq!(layout_array::<u16>(isize::MAX as usize / 2), Ok(Layout { size: isize::MAX as usize - 1, align: 2 }));
}

#[test]
fn errors_have_messages() {
    assert_eq!(SerializeError::Writer.message(), "the writer has no room for a write");
    assert_eq!(
        SerializeError::Layout.message(),
        "the memory layout of a value could not be computed"
    );
    assert_eq!(AccessError::InvalidUtf8.message(), "invalid UTF-8");
    assert_eq!(AccessError::Misaligned.message(), "an archived value is misaligned");
    assert_eq!(
        DeserializeError::Layout.message(),
        "the memory layout of a value could not be computed"
    );
    assert_eq!(
        UnixTimestampError::TimeBeforeUnixEpoch.message(),
        "time occurred before the UNIX epoch"
    );
}

#[test]
fn cloned_archives_the_value_of_a_shared_pointer() {
    let shared = std::rc::Rc::new(String::from("hello"));
    let mut writer = Writer::new(64);
    let pos = archive_with::<rkyv::with::Cloned, std::rc::Rc<String>>(&shared, &mut writer).unwrap();
    let bytes = writer.into_bytes();
    assert_eq!(bytes, to_bytes(&String::from("hello"), 64).unwrap());
    let back = read_with::<rkyv::with::Cloned, std::rc::Rc<String>>(&bytes, pos).unwrap();
    assert_eq!(back, shared);
    assert!(!std::rc::Rc::ptr_eq(&back, &shared));
}

#[test]
fn immutable_dereferences_to_its_value() {
    let wrapped = Immutable::new(5u8);
    assert_eq!(*wrapped, 5);
    assert_eq!(wrapped.value(), &5);
}

#[test]
fn small_integers_round_trip() {
    assert_eq!(to_bytes(&-2i8, 16).unwrap(), vec![0xfe]);
    assert_eq!(to_bytes(&-2i16, 16).unwrap(), vec![0xfe, 0xff]);
    assert_eq!(from_bytes::<i8>(&[0x80]), Ok(i8::MIN));
    assert_eq!(from_bytes::<i16>(&[0x00, 0x80]), Ok(i16::MIN));
    let value: Vec<i8> = vec![-1, 0, 1, i8::MAX];
    assert_eq!(from_bytes::<Vec<i8>>(&to_bytes(&value, 64).unwrap()), Ok(value));
    let value: Vec<i16> = vec![-1, 0, 1, i16::MAX];
    assert_eq!(from_bytes::<Vec<i16>>(&to_bytes(&value, 64).unwrap()), Ok(value));
}

#[test]
fn writer_aligns_for_a_type() {
    let mut writer = Writer::new(64);
    writer.write(&[1]).unwrap();
    assert_eq!(rkyv::api::align_for::<u64>(&mut writer), Ok(8));
    assert_eq!(rkyv::api::align_for::<Vec<u64>>(&mut writer), Ok(8));
    writer.write(&[1]).unwrap();
    assert_eq!(rkyv::api::align_for::<Vec<u64>>(&mut writer), Ok(12));
    let mut small = Writer::new(3);
    small.write(&[1]).unwrap();
    assert_eq!(rkyv::api::align_for::<u32>(&mut small), Err(SerializeError::Writer));
    assert_eq!(small.pos(), 1);
}
