//! Values that can be emptied in place, keeping their allocations.
use vstd::prelude::*;

verus! {

/// A value that can be cleared while keeping the memory it has allocated,
/// so that a pool can hand it out again.
pub trait Clear {
    /// The value holds nothing.
    spec fn is_clear(&self) -> bool;

    /// Empties the value, keeping its allocations.
    fn clear(&mut self)
        ensures
            final(self).is_clear();
}

impl<T> Clear for Option<T> {
    open spec fn is_clear(&self) -> bool {
        self.is_none()
    }

    fn clear(&mut self) {
        let _ = self.take();
    }
}

impl<T> Clear for Vec<T> {
    open spec fn is_clear(&self) -> bool {
        self@.len() == 0
    }

    fn clear(&mut self) {
        Vec::clear(self);
    }
}

impl Clear for String {
    open spec fn is_clear(&self) -> bool {
        self@.len() == 0
    }

    fn clear(&mut self) {
        clear_string(self);
    }
}

/// Relies on `String::clear`: the string is empty afterwards.
#[verifier::external_body]
fn clear_string(s: &mut String)
    ensures
        final(s)@.len() == 0,
{
    s.clear()
}

} // verus!
