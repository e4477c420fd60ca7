//! A very basic single-core lock for short, mostly uncontended sections.
//! On one CPU with exclusive references there is no real contention to
//! spin on: holding `&mut` to the lock is the lock, and a second taker
//! cannot exist while the first borrow lives. The interrupt-disabling
//! variant belongs to the arch layer outside this crate.

use vstd::prelude::*;

verus! {

/// A value guarded for short critical sections.
pub struct SpinLock<T> {
    value: T,
}

impl<T> SpinLock<T> {
    pub closed spec fn view(&self) -> T {
        self.value
    }

    pub fn new(value: T) -> (r: SpinLock<T>)
        ensures
            r@ == value,
    {
        SpinLock { value }
    }

    /// Enter the critical section: the exclusive borrow is the lock, so a
    /// double lock cannot be expressed at all.
    pub fn lock(&mut self) -> (r: &mut T)
        ensures
            *r == old(self)@,
            final(self)@ == *final(r),
    {
        &mut self.value
    }
}

} // verus!
