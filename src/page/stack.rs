//! The transfer stack: slots freed by threads other than the page's owner.
use vstd::prelude::*;
use super::slot::Slot;

verus! {

/// The end of a free list.
pub const NULL: usize = usize::MAX;

/// A LIFO list of slot offsets threaded through the slots' `next` links,
/// onto which threads other than the owner push the slots they free. The
/// owner takes the whole list at once when its local list runs dry.
pub struct TransferStack {
    pub(crate) head: usize,
}

impl TransferStack {
    pub(crate) open spec fn head_offset(&self) -> usize {
        self.head
    }

    /// Returns an empty stack.
    pub(crate) fn new() -> (r: TransferStack)
        ensures
            r.head_offset() == NULL,
    {
        TransferStack { head: NULL }
    }

    /// Pushes `offset`: the slot's link is set to the current head before the
    /// slot becomes the head, so the published list is always whole.
    pub(crate) fn push<T>(&mut self, offset: usize, slot: &mut Slot<T>)
        ensures
            final(self).head_offset() == offset,
            final(slot).next_link() == old(self).head_offset(),
            final(slot).lifecycle == old(slot).lifecycle,
            final(slot).value() == old(slot).value(),
    {
        slot.set_next(self.head);
        self.head = offset;
    }

    /// Takes the whole stack, leaving it empty: returns its head, or `None`
    /// where it was empty.
    pub(crate) fn pop_all(&mut self) -> (r: Option<usize>)
        ensures
            final(self).head_offset() == NULL,
            r == if old(self).head_offset() == NULL { None } else { Some(old(self).head_offset()) },
    {
        let head = self.head;
        self.head = NULL;
        if head == NULL {
            None
        } else {
            Some(head)
        }
    }
}

} // verus!
