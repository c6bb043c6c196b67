//! An archived optional value.

use vstd::prelude::*;
use core::cmp::Ordering;
use vstd::std_specs::cmp::{PartialEqSpec, PartialOrdSpec};

verus! {

/// An archived optional value.
///
/// It works as `Option` does, but has a fixed representation: one tag
/// byte, then the value.
#[derive(Clone, Copy, Debug, PartialEq, Eq, PartialOrd, Ord, Hash)]
pub enum ArchivedOption<T> {
    /// No value.
    Absent,
    /// Some value.
    Present(T),
}

impl<T> ArchivedOption<T> {
    /// Turns the option into a result: the value where there is one,
    /// `err` where there is none.
    pub fn ok_or<E>(self, err: E) -> (r: Result<T, E>)
        ensures
            r == match self {
                ArchivedOption::Absent => Err::<T, E>(err),
                ArchivedOption::Present(x) => Ok::<T, E>(x),
            },
    {
        match self {
            ArchivedOption::Absent => Err(err),
            ArchivedOption::Present(x) => Ok(x),
        }
    }

    /// The value of an option that holds one.
    pub fn unwrap(self) -> (value: T)
        requires
            self is Present,
        ensures
            self == ArchivedOption::Present(value),
    {
        match self {
            ArchivedOption::Absent => unreached(),
            ArchivedOption::Present(value) => value,
        }
    }

    /// The value, or `default` where there is none.
    pub fn unwrap_or(self, default: T) -> (value: T)
        ensures
            value == match self {
                ArchivedOption::Absent => default,
                ArchivedOption::Present(x) => x,
            },
    {
        match self {
            ArchivedOption::Absent => default,
            ArchivedOption::Present(value) => value,
        }
    }

    /// The value, or what `f` computes where there is none.
    pub fn unwrap_or_else<F: FnOnce() -> T>(self, f: F) -> (value: T)
        requires
            self is Absent ==> f.requires(()),
        ensures
            self is Present ==> self == ArchivedOption::Present(value),
            self is Absent ==> f.ensures((), value),
    {
        match self {
            ArchivedOption::Absent => f(),
            ArchivedOption::Present(value) => value,
        }
    }

    /// Whether the option holds no value.
    pub fn is_none(&self) -> (b: bool)
        ensures
            b == (*self is Absent),
    {
        match self {
            ArchivedOption::Absent => true,
            ArchivedOption::Present(_) => false,
        }
    }

    /// Whether the option holds a value.
    pub fn is_some(&self) -> (b: bool)
        ensures
            b == (*self is Present),
    {
        match self {
            ArchivedOption::Absent => false,
            ArchivedOption::Present(_) => true,
        }
    }

    /// A reference to the value, where there is one.
    pub fn as_ref(&self) -> (r: Option<&T>)
        ensures
            r == match *self {
                ArchivedOption::Absent => None::<&T>,
                ArchivedOption::Present(x) => Some(&x),
            },
    {
        match self {
            ArchivedOption::Absent => None,
            ArchivedOption::Present(value) => Some(value),
        }
    }

    /// A mutable reference to the value, where there is one.
    pub fn as_mut(&mut self) -> (r: Option<&mut T>)
        ensures
            *old(self) is Absent ==> r is None && *final(self) == *old(self),
            *old(self) matches ArchivedOption::Present(x) ==> r matches Some(m) && *m == x
                && *final(self) == ArchivedOption::Present(*final(m)),
    {
        match self {
            ArchivedOption::Absent => None,
            ArchivedOption::Present(value) => Some(value),
        }
    }

    /// An iterator over the value, where there is one.
    pub fn iter(&self) -> (it: Iter<'_, T>)
        ensures
            it.spec_inner() == match *self {
                ArchivedOption::Absent => None::<&T>,
                ArchivedOption::Present(x) => Some(&x),
            },
    {
        Iter { inner: self.as_ref() }
    }

    /// A mutable iterator over the value, where there is one.
    pub fn iter_mut(&mut self) -> (it: IterMut<'_, T>)
        ensures
            *old(self) is Absent ==> it.spec_inner() is None && *final(self) == *old(self),
            *old(self) matches ArchivedOption::Present(x) ==> it.spec_inner() matches Some(m)
                && *m == x && *final(self) == ArchivedOption::Present(*final(m)),
    {
        IterMut { inner: self.as_mut() }
    }

    /// Puts `v` into the option if it holds nothing, then returns a
    /// mutable reference to the value that it holds.
    pub fn get_or_insert(&mut self, v: T) -> (r: &mut T)
        ensures
            *r == match *old(self) {
                ArchivedOption::Absent => v,
                ArchivedOption::Present(x) => x,
            },
            *final(self) == ArchivedOption::Present(*final(r)),
    {
        if self.is_none() {
            *self = ArchivedOption::Present(v);
        }
        match self {
            ArchivedOption::Absent => unreached(),
            ArchivedOption::Present(value) => value,
        }
    }

    /// Puts what `f` computes into the option if it holds nothing, then
    /// returns a mutable reference to the value that it holds.
    pub fn get_or_insert_with<F: FnOnce() -> T>(&mut self, f: F) -> (r: &mut T)
        requires
            *old(self) is Absent ==> f.requires(()),
        ensures
            *old(self) matches ArchivedOption::Present(x) ==> *r == x,
            *old(self) is Absent ==> f.ensures((), *r),
            *final(self) == ArchivedOption::Present(*final(r)),
    {
        if self.is_none() {
            *self = ArchivedOption::Present(f());
        }
        match self {
            ArchivedOption::Absent => unreached(),
            ArchivedOption::Present(value) => value,
        }
    }
}

impl<T: core::ops::Deref> ArchivedOption<T> {
    /// A reference to what the value dereferences to, where there is a
    /// value.
    pub fn as_deref(&self) -> (r: Option<&T::Target>)
        ensures
            *self is Absent ==> r is None,
            *self matches ArchivedOption::Present(x) ==> r matches Some(t) && call_ensures(
                T::deref,
                (&x,),
                t,
            ),
    {
        match self {
            ArchivedOption::Absent => None,
            ArchivedOption::Present(x) => Some(x.deref()),
        }
    }
}

impl<U> ArchivedOption<U> {
    /// Whether the archived option equals an option: both hold nothing,
    /// or both hold values that are equal.
    pub fn eq<T>(&self, other: &Option<T>) -> (b: bool) where U: PartialEq<T>
        ensures
            U::obeys_eq_spec() ==> b == match (*self, *other) {
                (ArchivedOption::Absent, None) => true,
                (ArchivedOption::Present(x), Some(y)) => x.eq_spec(&y),
                _ => false,
            },
            !(*self is Present && *other is Some) ==> b == (*self is Absent && *other is None),
    {
        match self {
            ArchivedOption::Present(self_value) => match other {
                Some(other_value) => self_value.eq(other_value),
                None => false,
            },
            ArchivedOption::Absent => other.is_none(),
        }
    }

    /// Compares the archived option with an option: nothing comes before
    /// any value, and two values compare as they do themselves.
    pub fn partial_cmp<T>(&self, other: &Option<T>) -> (r: Option<Ordering>) where
        U: PartialOrd<T>,

        ensures
            U::obeys_partial_cmp_spec() ==> r == match (*self, *other) {
                (ArchivedOption::Absent, None) => Some(Ordering::Equal),
                (ArchivedOption::Absent, Some(_)) => Some(Ordering::Less),
                (ArchivedOption::Present(_), None) => Some(Ordering::Greater),
                (ArchivedOption::Present(x), Some(y)) => x.partial_cmp_spec(&y),
            },
            *self is Absent && *other is None ==> r == Some(Ordering::Equal),
            *self is Absent && *other is Some ==> r == Some(Ordering::Less),
            *self is Present && *other is None ==> r == Some(Ordering::Greater),
    {
        match (self, other) {
            (ArchivedOption::Absent, None) => Some(Ordering::Equal),
            (ArchivedOption::Absent, Some(_)) => Some(Ordering::Less),
            (ArchivedOption::Present(_), None) => Some(Ordering::Greater),
            (ArchivedOption::Present(self_value), Some(other_value)) => self_value.partial_cmp(
                other_value,
            ),
        }
    }
}

/// Compares an option with an archived option: nothing comes before any
/// value, and two values compare as they do themselves, the archived one
/// taken first and the outcome turned round.
pub fn option_partial_cmp<T, U>(this: &Option<U>, other: &ArchivedOption<T>) -> (r: Option<
    Ordering,
>) where T: PartialOrd<U>
    ensures
        T::obeys_partial_cmp_spec() ==> r == match (*this, *other) {
            (None, ArchivedOption::Absent) => Some(Ordering::Equal),
            (None, ArchivedOption::Present(_)) => Some(Ordering::Less),
            (Some(_), ArchivedOption::Absent) => Some(Ordering::Greater),
            (Some(x), ArchivedOption::Present(y)) => match y.partial_cmp_spec(&x) {
                Some(Ordering::Less) => Some(Ordering::Greater),
                Some(Ordering::Equal) => Some(Ordering::Equal),
                Some(Ordering::Greater) => Some(Ordering::Less),
                None => None,
            },
        },
        *this is None && *other is Absent ==> r == Some(Ordering::Equal),
        *this is None && *other is Present ==> r == Some(Ordering::Less),
        *this is Some && *other is Absent ==> r == Some(Ordering::Greater),
{
    match (this, other) {
        (None, ArchivedOption::Absent) => Some(Ordering::Equal),
        (None, ArchivedOption::Present(_)) => Some(Ordering::Less),
        (Some(_), ArchivedOption::Absent) => Some(Ordering::Greater),
        (Some(self_value), ArchivedOption::Present(other_value)) => {
            match other_value.partial_cmp(self_value) {
                Some(Ordering::Less) => Some(Ordering::Greater),
                Some(Ordering::Equal) => Some(Ordering::Equal),
                Some(Ordering::Greater) => Some(Ordering::Less),
                None => None,
            }
        },
    }
}

/// Whether an option equals an archived option.
pub fn option_eq<T, U>(this: &Option<U>, other: &ArchivedOption<T>) -> (b: bool) where
    T: PartialEq<U>,

    ensures
        T::obeys_eq_spec() ==> b == match (*other, *this) {
            (ArchivedOption::Absent, None) => true,
            (ArchivedOption::Present(x), Some(y)) => x.eq_spec(&y),
            _ => false,
        },
{
    other.eq(this)
}

impl<T> From<T> for ArchivedOption<T> {
    /// Moves `val` into a new option that holds it.
    fn from(val: T) -> (r: ArchivedOption<T>) {
        ArchivedOption::Present(val)
    }
}

impl<T> vstd::std_specs::convert::FromSpecImpl<T> for ArchivedOption<T> {
    open spec fn obeys_from_spec() -> bool {
        true
    }

    open spec fn from_spec(val: T) -> ArchivedOption<T> {
        ArchivedOption::Present(val)
    }
}

/// An iterator over a reference to the value of an `ArchivedOption`.
///
/// It yields one value if the option holds one, and none otherwise.
pub struct Iter<'a, T> {
    inner: Option<&'a T>,
}

impl<'a, T> Iter<'a, T> {
    /// What the iterator has yet to yield.
    pub closed spec fn spec_inner(&self) -> Option<&'a T> {
        self.inner
    }

    /// Yields the value, the first time, where there is one.
    pub fn next(&mut self) -> (r: Option<&'a T>)
        ensures
            r == old(self).spec_inner(),
            final(self).spec_inner() is None,
    {
        let mut result = None;
        core::mem::swap(&mut self.inner, &mut result);
        result
    }

    /// Yields the value from the back, which is the same as from the
    /// front.
    pub fn next_back(&mut self) -> (r: Option<&'a T>)
        ensures
            r == old(self).spec_inner(),
            final(self).spec_inner() is None,
    {
        self.next()
    }
}

/// An iterator over a mutable reference to the value of an
/// `ArchivedOption`.
///
/// It yields one value if the option holds one, and none otherwise.
pub struct IterMut<'a, T> {
    inner: Option<&'a mut T>,
}

impl<'a, T> IterMut<'a, T> {
    /// What the iterator has yet to yield.
    pub closed spec fn spec_inner(&self) -> Option<&'a mut T> {
        self.inner
    }

    /// Yields the value, the first time, where there is one.
    pub fn next(&mut self) -> (r: Option<&'a mut T>)
        ensures
            r == old(self).spec_inner(),
            final(self).spec_inner() is None,
    {
        let mut result = None;
        core::mem::swap(&mut self.inner, &mut result);
        result
    }

    /// Yields the value from the back, which is the same as from the
    /// front.
    pub fn next_back(&mut self) -> (r: Option<&'a mut T>)
        ensures
            r == old(self).spec_inner(),
            final(self).spec_inner() is None,
    {
        self.next()
    }
}

impl<T: core::ops::DerefMut> ArchivedOption<T> {
    /// A mutable reference to what the value dereferences to, where
    /// there is a value.
    pub fn as_deref_mut(&mut self) -> (r: Option<&mut T::Target>)
        ensures
            *old(self) is Absent ==> r is None,
            *old(self) is Present ==> r is Some,
    {
        match self {
            ArchivedOption::Absent => None,
            ArchivedOption::Present(x) => Some(x.deref_mut()),
        }
    }
}

} // verus!
