//! One slot of a page: a lifecycle word, a free-list link and the value.
//!
//! The lifecycle word packs, from the least significant bit, a two-bit
//! state, a reference count, and the slot's generation. A slot that holds
//! no value carries the `REMOVING` state: it is on a free list, no guard
//! refers to it, and no key of its current generation has been handed out.
use vstd::prelude::*;
use crate::bitpack::{self, mask_of, unpack_spec, pack_spec};
use crate::cfg::Config;

verus! {

/// The slot holds a value that may be read.
pub const NOT_REMOVED: u64 = 0b00;

/// Removal was asked for while guards refer to the value; the last guard
/// to be released completes it.
pub const MARKED: u64 = 0b01;

/// The slot is vacant: its value was removed and it waits on a free list.
pub const REMOVING: u64 = 0b11;

/// The state field of a lifecycle word.
pub open(crate) spec fn lc_state(w: u64) -> u64 {
    unpack_spec(w, 0, 2)
}

/// The reference-count field of a lifecycle word.
pub open(crate) spec fn lc_refs(c: Config, w: u64) -> u64 {
    unpack_spec(w, 2, c.refs_len)
}

/// The generation field of a lifecycle word.
pub open(crate) spec fn lc_gen(c: Config, w: u64) -> u64 {
    unpack_spec(w, (2 + c.refs_len) as u64, c.gen_len)
}

/// The largest reference count a slot can hold.
pub open(crate) spec fn max_refs(c: Config) -> u64 {
    mask_of(c.refs_len)
}

/// The generation after `gen`, modulo `2^gen_bits`.
pub open(crate) spec fn next_gen(c: Config, gen: u64) -> u64 {
    if gen >= mask_of(c.gen_len) {
        0
    } else {
        (gen + 1) as u64
    }
}

proof fn lemma_fields(c: Config)
    requires
        c.wf(),
    ensures
        bitpack::field_fits(0, 2),
        bitpack::field_fits(2, c.refs_len),
        bitpack::field_fits((2 + c.refs_len) as u64, c.gen_len),
        bitpack::fields_disjoint(0, 2, 2, c.refs_len),
        bitpack::fields_disjoint(0, 2, (2 + c.refs_len) as u64, c.gen_len),
        bitpack::fields_disjoint(2, c.refs_len, (2 + c.refs_len) as u64, c.gen_len),
        mask_of(2) == 3,
{
    assert(u64::MAX >> ((64 - 2u64) as u64) == 3) by (bit_vector);
}

/// Returns the lifecycle word with the given state, reference count and
/// generation.
pub(crate) fn make_lifecycle(c: &Config, state: u64, refs: u64, gen: u64) -> (r: u64)
    requires
        c.wf(),
        state <= 3,
        refs <= max_refs(*c),
        gen <= mask_of(c.gen_len),
    ensures
        lc_state(r) == state,
        lc_refs(*c, r) == refs,
        lc_gen(*c, r) == gen,
{
    proof {
        lemma_fields(*c);
        let w1 = pack_spec(state, 0, 0, 2);
        let w2 = pack_spec(refs, w1, 2, c.refs_len);
        bitpack::lemma_pack_unpack(state, 0, 0, 2);
        bitpack::lemma_pack_unpack(refs, w1, 2, c.refs_len);
        bitpack::lemma_pack_other(refs, w1, 2, c.refs_len, 0, 2);
        bitpack::lemma_pack_unpack(gen, w2, (2 + c.refs_len) as u64, c.gen_len);
        bitpack::lemma_pack_other(gen, w2, (2 + c.refs_len) as u64, c.gen_len, 0, 2);
        bitpack::lemma_pack_other(gen, w2, (2 + c.refs_len) as u64, c.gen_len, 2, c.refs_len);
    }
    let w = bitpack::pack(state, 0, 0, 2);
    let w = bitpack::pack(refs, w, 2, c.refs_len);
    bitpack::pack(gen, w, 2 + c.refs_len, c.gen_len)
}

/// Returns the state field of a lifecycle word.
pub(crate) fn state_of(w: u64) -> (r: u64)
    ensures
        r == lc_state(w),
        r <= 3,
{
    proof {
        assert(u64::MAX >> ((64 - 2u64) as u64) == 3) by (bit_vector);
    }
    bitpack::unpack(w, 0, 2)
}

/// Returns the reference count of a lifecycle word.
pub(crate) fn refs_of(c: &Config, w: u64) -> (r: u64)
    requires
        c.wf(),
    ensures
        r == lc_refs(*c, w),
        r <= max_refs(*c),
{
    bitpack::unpack(w, 2, c.refs_len)
}

/// Returns the generation of a lifecycle word.
pub(crate) fn gen_of(c: &Config, w: u64) -> (r: u64)
    requires
        c.wf(),
    ensures
        r == lc_gen(*c, w),
        r <= mask_of(c.gen_len),
{
    bitpack::unpack(w, 2 + c.refs_len, c.gen_len)
}

/// Returns the generation that follows `gen`, wrapping to zero after the
/// largest generation the field holds.
pub(crate) fn advance(c: &Config, gen: u64) -> (r: u64)
    requires
        c.wf(),
    ensures
        r == next_gen(*c, gen),
        r <= mask_of(c.gen_len),
        gen <= mask_of(c.gen_len) ==> r != gen,
{
    proof {
        crate::bitpack::lemma_mask_is_pow2_minus_one(c.gen_len);
        vstd::arithmetic::power2::lemma_pow2_pos(c.gen_len as nat);
        vstd::arithmetic::power2::lemma_pow2_strictly_increases(0, c.gen_len as nat);
        vstd::arithmetic::power2::lemma2_to64();
    }
    if gen >= bitpack::make_mask(c.gen_len) {
        0
    } else {
        gen + 1
    }
}

pub struct Slot<T> {
    /// The packed state, reference count and generation.
    pub(crate) lifecycle: u64,
    /// The offset of the next slot on the free list this slot is on.
    pub(crate) next: usize,
    /// The value stored in the slot.
    pub(crate) item: Option<T>,
}

impl<T> Slot<T> {
    pub(crate) open spec fn state(&self) -> u64 {
        lc_state(self.lifecycle)
    }

    pub(crate) open spec fn refs(&self, c: Config) -> u64 {
        lc_refs(c, self.lifecycle)
    }

    pub(crate) open spec fn gen(&self, c: Config) -> u64 {
        lc_gen(c, self.lifecycle)
    }

    pub(crate) open spec fn next_link(&self) -> usize {
        self.next
    }

    pub(crate) open spec fn value(&self) -> Option<T> {
        self.item
    }

    /// The slot is vacant and may be handed out by `insert`.
    pub(crate) open spec fn is_vacant(&self) -> bool {
        self.state() == REMOVING
    }

    /// The slot holds a value that a key of generation `gen` reaches.
    pub(crate) open spec fn is_live(&self, c: Config, gen: u64) -> bool {
        self.state() == NOT_REMOVED && self.gen(c) == gen
    }

    /// The states a slot rests in between operations.
    pub(crate) open spec fn wf(&self, c: Config) -> bool {
        &&& self.state() == NOT_REMOVED || self.state() == MARKED || self.state() == REMOVING
        &&& self.state() == REMOVING ==> self.refs(c) == 0
        &&& self.state() != REMOVING ==> self.item.is_some()
        &&& self.state() == MARKED ==> self.refs(c) > 0
    }

    /// Returns a vacant slot of generation zero whose free-list link is `next`.
    pub(crate) fn new(c: &Config, next: usize) -> (r: Slot<T>)
        requires
            c.wf(),
        ensures
            r.wf(*c),
            r.is_vacant(),
            r.gen(*c) == 0,
            r.next_link() == next,
            r.value().is_none(),
    {
        let lifecycle = make_lifecycle(c, REMOVING, 0, 0);
        Slot { lifecycle, next, item: None }
    }

    /// Returns the free-list link.
    pub(crate) fn next(&self) -> (r: usize)
        ensures
            r == self.next_link(),
    {
        self.next
    }

    /// Sets the free-list link.
    pub(crate) fn set_next(&mut self, next: usize)
        ensures
            final(self).next_link() == next,
            final(self).lifecycle == old(self).lifecycle,
            final(self).value() == old(self).value(),
    {
        self.next = next;
    }

    /// Returns the stored value.
    pub(crate) fn item(&self) -> (r: Option<&T>)
        ensures
            r == match self.value() {
                Some(v) => Some(&v),
                None => None::<&T>,
            },
    {
        self.item.as_ref()
    }

    /// Takes a reference on the slot for a key of generation `gen`: succeeds
    /// where the slot is live in that generation and the count is below its
    /// maximum, and then adds one to the count.
    pub(crate) fn get(&mut self, c: &Config, gen: u64) -> (r: bool)
        requires
            c.wf(),
            old(self).wf(*c),
        ensures
            r == (old(self).is_live(*c, gen) && old(self).refs(*c) < max_refs(*c)),
            !r ==> *final(self) == *old(self),
            final(self).wf(*c),
            final(self).state() == old(self).state(),
            final(self).gen(*c) == old(self).gen(*c),
            final(self).refs(*c) == if r { (old(self).refs(*c) + 1) as u64 } else { old(self).refs(*c) },
            final(self).value() == old(self).value(),
            final(self).next_link() == old(self).next_link(),
    {
        let lifecycle = self.lifecycle;
        let state = state_of(lifecycle);
        let current = gen_of(c, lifecycle);
        let refs = refs_of(c, lifecycle);
        if gen != current || state != NOT_REMOVED {
            return false;
        }
        if refs >= bitpack::make_mask(c.refs_len) {
            return false;
        }
        self.lifecycle = make_lifecycle(c, state, refs + 1, current);
        true
    }

    /// Drops one reference. Where it was the last reference to a slot
    /// marked for removal, the slot turns removing, with no reference and
    /// the same generation, and `true` is returned: the caller then
    /// completes the removal. A slot with no reference is left as it is.
    pub(crate) fn release(&mut self, c: &Config) -> (r: bool)
        requires
            c.wf(),
            old(self).wf(*c),
        ensures
            r == (old(self).refs(*c) == 1 && old(self).state() == MARKED),
            old(self).refs(*c) == 0 ==> *final(self) == *old(self),
            r ==> final(self).state() == REMOVING,
            !r ==> final(self).state() == old(self).state(),
            final(self).gen(*c) == old(self).gen(*c),
            final(self).refs(*c) == if old(self).refs(*c) == 0 { 0 } else { (old(self).refs(*c) - 1) as u64 },
            final(self).value() == old(self).value(),
            final(self).next_link() == old(self).next_link(),
            final(self).wf(*c),
    {
        let lifecycle = self.lifecycle;
        let state = state_of(lifecycle);
        let gen = gen_of(c, lifecycle);
        let refs = refs_of(c, lifecycle);
        if refs == 0 {
            return false;
        }
        if refs == 1 && state == MARKED {
            self.lifecycle = make_lifecycle(c, REMOVING, 0, gen);
            return true;
        }
        self.lifecycle = make_lifecycle(c, state, refs - 1, gen);
        false
    }

    /// Stores `value` in a vacant slot, which becomes live in its current
    /// generation; returns that generation.
    pub(crate) fn insert(&mut self, c: &Config, value: T) -> (r: u64)
        requires
            c.wf(),
            old(self).wf(*c),
            old(self).is_vacant(),
        ensures
            r == old(self).gen(*c),
            final(self).wf(*c),
            final(self).is_live(*c, r),
            final(self).refs(*c) == 0,
            final(self).value() == Some(value),
            final(self).next_link() == old(self).next_link(),
    {
        let gen = gen_of(c, self.lifecycle);
        self.lifecycle = make_lifecycle(c, NOT_REMOVED, 0, gen);
        self.item = Some(value);
        gen
    }

    /// Marks a live slot of generation `gen` for removal. Returns whether it
    /// was live; the slot is then marked, or, with no reference left, ready
    /// for `finish_removal`.
    pub(crate) fn mark(&mut self, c: &Config, gen: u64) -> (r: bool)
        requires
            c.wf(),
            old(self).wf(*c),
        ensures
            r == old(self).is_live(*c, gen),
            r ==> final(self).state() == MARKED,
            !r ==> *final(self) == *old(self),
            final(self).gen(*c) == old(self).gen(*c),
            final(self).refs(*c) == old(self).refs(*c),
            final(self).value() == old(self).value(),
            final(self).next_link() == old(self).next_link(),
            old(self).refs(*c) > 0 ==> final(self).wf(*c),
    {
        let lifecycle = self.lifecycle;
        let state = state_of(lifecycle);
        let current = gen_of(c, lifecycle);
        let refs = refs_of(c, lifecycle);
        if gen != current || state != NOT_REMOVED {
            return false;
        }
        self.lifecycle = make_lifecycle(c, MARKED, refs, current);
        true
    }

    /// Completes a removal once no reference is left (the slot is marked,
    /// or `release` has left it removing): advances the generation and
    /// leaves the slot vacant, with its value in place.
    pub(crate) fn finish_removal(&mut self, c: &Config)
        requires
            c.wf(),
            old(self).refs(*c) == 0,
        ensures
            final(self).wf(*c),
            final(self).is_vacant(),
            final(self).gen(*c) == next_gen(*c, old(self).gen(*c)),
            final(self).value() == old(self).value(),
            final(self).next_link() == old(self).next_link(),
    {
        let gen = gen_of(c, self.lifecycle);
        let next = advance(c, gen);
        self.lifecycle = make_lifecycle(c, REMOVING, 0, next);
    }

    /// Moves the value out of the slot.
    pub(crate) fn take_item(&mut self) -> (r: Option<T>)
        ensures
            r == old(self).value(),
            final(self).value().is_none(),
            final(self).lifecycle == old(self).lifecycle,
            final(self).next_link() == old(self).next_link(),
    {
        self.item.take()
    }

    /// Returns the stored value for writing.
    pub(crate) fn item_mut(&mut self) -> (r: &mut Option<T>)
        ensures
            *r == old(self).value(),
            final(self).value() == *final(r),
            final(self).lifecycle == old(self).lifecycle,
            final(self).next_link() == old(self).next_link(),
    {
        &mut self.item
    }
}

} // verus!
