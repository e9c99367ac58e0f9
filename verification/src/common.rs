//! The guarded length: a local count that is written back to the real
//! length counter in one step.
use vstd::prelude::*;

verus! {

/// Holds a length counter and a local copy of it. Writers raise the local
/// copy slot by slot; the counter itself changes only when the guard is
/// released, and then takes the local value.
pub struct SetLenOnDrop<'a> {
    /// The counter that the guard writes to when it is released.
    pub len: &'a mut usize,
    /// The length known to be safe so far.
    pub local_len: usize,
}

impl<'a> SetLenOnDrop<'a> {
    /// A guard over `len`, starting at its value.
    pub fn new(len: &'a mut usize) -> (guard: SetLenOnDrop<'a>)
        ensures
            guard.local_len == *old(len),
            *guard.len == *old(len),
            *final(len) == *final(guard.len),
    {
        SetLenOnDrop { local_len: *len, len }
    }

    /// Raises the local length by `increment`.
    pub fn increment_len(&mut self, increment: usize)
        requires
            old(self).local_len + increment <= usize::MAX,
        ensures
            final(self).local_len == old(self).local_len + increment,
            final(self).len == old(self).len,
    {
        self.local_len += increment;
    }

    /// The local length.
    pub fn current_len(&self) -> (n: usize)
        ensures
            n == self.local_len,
    {
        self.local_len
    }

    /// Releases the guard: the counter takes the local length.
    pub fn release(self)
        ensures
            *final(self.len) == self.local_len,
    {
        *self.len = self.local_len;
    }
}

} // verus!
