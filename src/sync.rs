//! A cell that hands out one borrow at a time.

use vstd::prelude::*;

verus! {

/// Holds a value that one holder at a time may use; asking for it while it
/// is held is a kernel bug.
pub struct UnSafeCell<T> {
    inner: T,
    borrowed: bool,
}

impl<T> UnSafeCell<T> {
    pub closed spec fn value(&self) -> T {
        self.inner
    }

    pub closed spec fn is_borrowed(&self) -> bool {
        self.borrowed
    }

    pub fn new(value: T) -> (r: Self)
        ensures
            r.value() == value,
            !r.is_borrowed(),
    {
        UnSafeCell { inner: value, borrowed: false }
    }

    /// Takes the borrow; taking it while it is held is a kernel bug.
    pub fn exclusive_access(&mut self)
        requires
            !old(self).is_borrowed(),
        ensures
            final(self).is_borrowed(),
            final(self).value() == old(self).value(),
    {
        self.borrowed = true;
    }

    /// Whether the borrow is held.
    pub fn is_held(&self) -> (r: bool)
        ensures
            r == self.is_borrowed(),
    {
        self.borrowed
    }

    /// Gives the borrow back.
    pub fn release(&mut self)
        ensures
            !final(self).is_borrowed(),
            final(self).value() == old(self).value(),
    {
        self.borrowed = false;
    }

    /// The value, for the holder of the borrow.
    pub fn get(&self) -> (r: &T)
        requires
            self.is_borrowed(),
        ensures
            *r == self.value(),
    {
        &self.inner
    }

    /// Replaces the value, for the holder of the borrow.
    pub fn set(&mut self, value: T)
        requires
            old(self).is_borrowed(),
        ensures
            final(self).value() == value,
            final(self).is_borrowed(),
    {
        self.inner = value;
    }
}

} // verus!
