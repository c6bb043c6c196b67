use std::cmp::Ordering;

use rkyv::option::{option_eq, option_partial_cmp, ArchivedOption};

#[test]
fn option_values_are_taken_out() {
    let some: ArchivedOption<u8> = ArchivedOption::Present(3);
    let none: ArchivedOption<u8> = ArchivedOption::Absent;
    assert_eq!(some.ok_or("none"), Ok(3));
    assert_eq!(none.ok_or("none"), Err("none"));
    assert_eq!(some.unwrap(), 3);
    assert_eq!(some.unwrap_or(9), 3);
    assert_eq!(none.unwrap_or(9), 9);
    assert_eq!(some.unwrap_or_else(|| 9), 3);
    assert_eq!(none.unwrap_or_else(|| 9), 9);
    assert!(some.is_some() && !some.is_none());
    assert!(none.is_none() && !none.is_some());
    assert_eq!(some.as_ref(), Some(&3));
    assert_eq!(none.as_ref(), None);
    assert!(matches!(ArchivedOption::from(67u8), ArchivedOption::Present(67)));
}

#[test]
fn option_values_are_changed_in_place() {
    let mut some: ArchivedOption<u8> = ArchivedOption::Present(3);
    if let Some(x) = some.as_mut() {
        *x = 4;
    }
    assert_eq!(some.as_ref(), Some(&4));
    for x in some.iter_mut().next() {
        *x += 1;
    }
    assert_eq!(some.as_ref(), Some(&5));

    let mut none: ArchivedOption<u8> = ArchivedOption::Absent;
    assert!(none.as_mut().is_none());
    assert!(none.iter_mut().next().is_none());
    *none.get_or_insert(7) += 1;
    assert_eq!(none.as_ref(), Some(&8));
    assert_eq!(*none.get_or_insert(1), 8);
    assert_eq!(*none.get_or_insert_with(|| 2), 8);

    let mut empty: ArchivedOption<u8> = ArchivedOption::Absent;
    assert_eq!(*empty.get_or_insert_with(|| 2), 2);
    assert_eq!(empty.as_ref(), Some(&2));
}

#[test]
fn option_iterators_yield_at_most_once() {
    let some: ArchivedOption<u8> = ArchivedOption::Present(1);
    let mut iter = some.iter();
    assert_eq!(iter.next_back(), Some(&1));
    assert_eq!(iter.next(), None);
    assert_eq!(iter.next_back(), None);

    let mut some: ArchivedOption<u8> = ArchivedOption::Present(1);
    let mut iter = some.iter_mut();
    assert_eq!(iter.next_back(), Some(&mut 1));
    assert_eq!(iter.next(), None);
}

#[test]
fn option_dereferences_its_value() {
    let some: ArchivedOption<Box<u8>> = ArchivedOption::Present(Box::new(3));
    assert_eq!(some.as_deref(), Some(&3));
    let none: ArchivedOption<Box<u8>> = ArchivedOption::Absent;
    assert_eq!(none.as_deref(), None);
    let mut some: ArchivedOption<Box<u8>> = ArchivedOption::Present(Box::new(3));
    if let Some(x) = some.as_deref_mut() {
        *x = 4;
    }
    assert_eq!(some.as_deref(), Some(&4));
}

#[test]
fn option_compares_with_plain_options() {
    let some: ArchivedOption<u8> = ArchivedOption::Present(2);
    let none: ArchivedOption<u8> = ArchivedOption::Absent;
    assert!(some.eq(&Some(2)));
    assert!(!some.eq(&Some(3)));
    assert!(!some.eq(&None));
    assert!(none.eq(&None));
    assert!(!none.eq(&Some(2)));
    assert!(option_eq(&Some(2u8), &some));
    assert!(!option_eq(&None::<u8>, &some));

    assert_eq!(none.partial_cmp(&None), Some(Ordering::Equal));
    assert_eq!(none.partial_cmp(&Some(0)), Some(Ordering::Less));
    assert_eq!(some.partial_cmp(&None), Some(Ordering::Greater));

    assert_eq!(option_partial_cmp(&Some(42u8), &ArchivedOption::Present(42u8)), Some(Ordering::Equal));
    assert_eq!(option_partial_cmp(&Some(2u8), &ArchivedOption::Present(1u8)), Some(Ordering::Greater));
    assert_eq!(option_partial_cmp(&Some(1u8), &ArchivedOption::Present(2u8)), Some(Ordering::Less));
    assert_eq!(option_partial_cmp(&None::<u8>, &ArchivedOption::Present(2u8)), Some(Ordering::Less));
    assert_eq!(option_partial_cmp(&Some(1u8), &ArchivedOption::<u8>::Absent), Some(Ordering::Greater));
    assert_eq!(option_partial_cmp(&None::<u8>, &ArchivedOption::<u8>::Absent), Some(Ordering::Equal));
}

#[test]
fn options_compare_with_each_other() {
    let none: ArchivedOption<u8> = ArchivedOption::Absent;
    let one: ArchivedOption<u8> = ArchivedOption::Present(1);
    let two: ArchivedOption<u8> = ArchivedOption::Present(2);
    assert!(none == ArchivedOption::Absent);
    assert!(one != two);
    assert!(none < one && one < two);
    assert_eq!(Ord::cmp(&two, &one), Ordering::Greater);
    assert_eq!(Ord::cmp(&none, &none), Ordering::Equal);
    let mut seen = std::collections::HashSet::new();
    assert!(seen.insert(one));
    assert!(!seen.insert(ArchivedOption::Present(1)));
}
