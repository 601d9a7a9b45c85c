use vstd::prelude::*;

verus! {

/// A plain wrapper around a value, for values that different threads
/// update. It dereferences to the value. (It carries no alignment of its
/// own.)
pub struct PaddedType<T> {
    value: T,
}

impl<T> PaddedType<T> {
    /// The wrapped value.
    pub closed spec fn inner(&self) -> T {
        self.value
    }

    /// Wraps `value`.
    pub fn new(value: T) -> (padded: Self)
        ensures
            padded.inner() == value,
    {
        PaddedType { value }
    }

}

impl<T> core::ops::Deref for PaddedType<T> {
    type Target = T;

    fn deref(&self) -> (r: &T)
        ensures
            *r == self.inner(),
    {
        &self.value
    }
}

impl<T> core::ops::DerefMut for PaddedType<T> {
    fn deref_mut(&mut self) -> (r: &mut T)
        ensures
            *r == old(self).inner(),
            final(self).inner() == *final(r),
    {
        &mut self.value
    }
}

} // verus!
