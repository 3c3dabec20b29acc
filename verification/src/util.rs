//! A value that is either shared behind an `Arc` or owned outright.

use std::sync::Arc;
use vstd::prelude::*;

verus! {

/// Either a shared, reference-counted value or an owned one.
pub enum Cow<T> {
    Borrowed(Arc<T>),
    Owned(T),
}

impl<T> Cow<T> {
    /// The value held, shared or owned.
    pub open spec fn value(&self) -> T {
        match self {
            Cow::Borrowed(a) => **a,
            Cow::Owned(t) => *t,
        }
    }

    /// A reference to the value held.
    pub fn get(&self) -> (r: &T)
        ensures
            *r == self.value(),
    {
        match self {
            Cow::Borrowed(a) => &**a,
            Cow::Owned(t) => t,
        }
    }
}

impl<T: Clone> Cow<T> {
    /// A shared handle to the value: the same `Arc` when already shared, otherwise
    /// a clone of the owned value moved behind a new `Arc`.
    pub fn to_borrowed(&self) -> (r: Self)
        ensures
            r is Borrowed,
            self is Borrowed ==> r.value() == self.value(),
            self is Owned ==> cloned(self.value(), r.value()),
    {
        match self {
            Cow::Borrowed(a) => Cow::Borrowed(a.clone()),
            Cow::Owned(t) => Cow::Borrowed(Arc::new(t.clone())),
        }
    }

    /// A mutable reference to the value, first replacing a shared value by an owned
    /// clone of it.
    pub fn to_mut(&mut self) -> (r: &mut T)
        ensures
            *final(self) is Owned,
            cloned(old(self).value(), *r),
            final(self).value() == *final(r),
    {
        if let Cow::Borrowed(a) = self {
            let owned = (**a).clone();
            *self = Cow::Owned(owned);
        }
        match self {
            Cow::Owned(t) => t,
            Cow::Borrowed(_) => unreached(),
        }
    }
}

impl<T: Default> Default for Cow<T> {
    /// An owned default value.
    fn default() -> (r: Self)
        ensures
            r is Owned,
            call_ensures(T::default, (), r.value()),
    {
        Cow::Owned(T::default())
    }
}

} // verus!
