use std::cmp::Ordering;

use rkyv::option::ArchivedOption;

#[test]
fn partial_ord_option() {
    let a: ArchivedOption<u8> = ArchivedOption::Present(42);
    let b = Some(42);
    assert_eq!(Some(Ordering::Equal), a.partial_cmp(&b));

    let a: ArchivedOption<u8> = ArchivedOption::Present(1);
    let b = Some(2);
    assert_eq!(Some(Ordering::Less), a.partial_cmp(&b));

    let a: ArchivedOption<u8> = ArchivedOption::Present(2);
    let b = Some(1);
    assert_eq!(Some(Ordering::Greater), a.partial_cmp(&b));
}

#[test]
fn into_iter() {
    let x: ArchivedOption<u8> = ArchivedOption::Present(1);
    let mut iter = x.iter();
    assert_eq!(iter.next(), Some(&1));
    assert_eq!(iter.next(), None);

    let x: ArchivedOption<u8> = ArchivedOption::Absent;
    let mut iter = x.iter();
    assert_eq!(iter.next(), None);
}
