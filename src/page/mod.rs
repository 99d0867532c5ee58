//! Pages of slots. A page's slot array is allocated on first use; its free
//! slots sit on one of two lists threaded through the slots' links: the
//! local list, touched only by the owning thread, and the transfer stack,
//! onto which other threads push the slots they free.
use vstd::prelude::*;
use crate::cfg::Config;
use self::slot::{Slot, max_refs, next_gen, REMOVING, NOT_REMOVED, MARKED};
use self::stack::{TransferStack, NULL};

pub mod slot;
pub mod stack;

verus! {

/// `list` is the free list that starts at `head`: each offset is in bounds,
/// none appears twice, each slot links to the next, and the last to `NULL`.
pub(crate) open spec fn chain<T>(head: usize, list: Seq<usize>, slots: Seq<Slot<T>>) -> bool {
    &&& list.len() == 0 ==> head == NULL
    &&& list.len() > 0 ==> head == list[0] && slots[list.last() as int].next_link() == NULL
    &&& forall|i: int| 0 <= i < list.len() ==> (#[trigger] list[i]) < slots.len()
    &&& forall|i: int| 0 <= i < list.len() - 1 ==> slots[(#[trigger] list[i]) as int].next_link() == list[i + 1]
    &&& list.no_duplicates()
}

/// Each slot named by `list` is vacant.
pub(crate) open spec fn all_vacant<T>(list: Seq<usize>, slots: Seq<Slot<T>>) -> bool {
    forall|i: int| 0 <= i < list.len() ==> slots[(#[trigger] list[i]) as int].is_vacant()
}

/// Every vacant slot among the first `size` is on one of the two lists.
/// Every vacant slot among the first `size`, but the one at `skip`, is on
/// one of the two lists.
pub(crate) open spec fn vacant_listed<T>(size: int, l1: Seq<usize>, l2: Seq<usize>, slots: Seq<Slot<T>>, skip: int) -> bool {
    forall|k: int| 0 <= k < size && k != skip && (#[trigger] slots[k]).is_vacant() ==> l1.contains(k as usize) || l2.contains(k as usize)
}

/// Updating a slot that is on no list keeps a chain whole.
proof fn lemma_chain_frame<T>(head: usize, list: Seq<usize>, slots: Seq<Slot<T>>, off: usize, s: Slot<T>)
    requires
        chain(head, list, slots),
        all_vacant(list, slots),
        off < slots.len(),
        !list.contains(off),
    ensures
        chain(head, list, slots.update(off as int, s)),
        all_vacant(list, slots.update(off as int, s)),
{
    let s2 = slots.update(off as int, s);
    assert forall|i: int| 0 <= i < list.len() implies (#[trigger] list[i]) != off by {
        if list[i] == off {
            assert(list.contains(off));
        }
    }
    if list.len() > 0 {
        assert(list[list.len() - 1] != off);
    }
    assert forall|i: int| 0 <= i < list.len() - 1 implies s2[(#[trigger] list[i]) as int].next_link() == list[i + 1] by {
        assert(list[i] != off);
    }
}

/// Pushing a slot that is on no list onto the front keeps the chain whole.
proof fn lemma_chain_push<T>(head: usize, list: Seq<usize>, slots: Seq<Slot<T>>, off: usize, s: Slot<T>)
    requires
        chain(head, list, slots),
        all_vacant(list, slots),
        off < slots.len(),
        !list.contains(off),
        s.next_link() == head,
        s.is_vacant(),
    ensures
        chain(off, seq![off].add(list), slots.update(off as int, s)),
        all_vacant(seq![off].add(list), slots.update(off as int, s)),
{
    lemma_chain_frame(head, list, slots, off, s);
    let l2 = seq![off].add(list);
    let s2 = slots.update(off as int, s);
    assert(s2[off as int] == s);
    assert forall|i: int| 0 <= i < l2.len() - 1 implies s2[(#[trigger] l2[i]) as int].next_link() == l2[i + 1] by {
        if i > 0 {
            assert(l2[i] == list[i - 1]);
            assert(l2[i + 1] == list[i]);
            assert(s2[list[i - 1] as int].next_link() == list[i]);
        } else {
            assert(l2[0] == off);
            assert(l2[1] == list[0]);
        }
    }
    assert forall|i: int| 0 <= i < l2.len() implies (#[trigger] l2[i]) < s2.len() by {
        if i > 0 {
            assert(l2[i] == list[i - 1]);
        }
    }
    assert forall|i: int| 0 <= i < l2.len() implies s2[(#[trigger] l2[i]) as int].is_vacant() by {
        if i > 0 {
            assert(l2[i] == list[i - 1]);
            assert(s2[list[i - 1] as int].is_vacant());
        } else {
            assert(l2[0] == off);
        }
    }
    assert forall|i: int, j: int| 0 <= i < l2.len() && 0 <= j < l2.len() && i != j implies l2[i] != l2[j] by {
        if i > 0 && j > 0 {
            assert(l2[i] == list[i - 1]);
            assert(l2[j] == list[j - 1]);
        } else if i == 0 {
            assert(l2[j] == list[j - 1]);
            assert(list.contains(l2[j]));
        } else {
            assert(l2[i] == list[i - 1]);
            assert(list.contains(l2[i]));
        }
    }
    if list.len() > 0 {
        assert(l2.last() == list.last());
    }
}

/// Updating a slot on a list with one that keeps its link and stays vacant
/// keeps the chain whole.
proof fn lemma_chain_keep<T>(head: usize, list: Seq<usize>, slots: Seq<Slot<T>>, off: usize, s: Slot<T>)
    requires
        chain(head, list, slots),
        all_vacant(list, slots),
        off < slots.len(),
        s.next_link() == slots[off as int].next_link(),
        s.is_vacant(),
    ensures
        chain(head, list, slots.update(off as int, s)),
        all_vacant(list, slots.update(off as int, s)),
{
    let s2 = slots.update(off as int, s);
    assert forall|i: int| 0 <= i < list.len() - 1 implies s2[(#[trigger] list[i]) as int].next_link() == list[i + 1] by {
        assert(slots[list[i] as int].next_link() == list[i + 1]);
    }
    assert forall|i: int| 0 <= i < list.len() implies s2[(#[trigger] list[i]) as int].is_vacant() by {
        assert(slots[list[i] as int].is_vacant());
    }
}

/// Taking the head off a chain and updating that slot, its link kept,
/// leaves the rest a chain.
proof fn lemma_chain_pop<T>(head: usize, list: Seq<usize>, slots: Seq<Slot<T>>, s: Slot<T>)
    requires
        chain(head, list, slots),
        all_vacant(list, slots),
        list.len() > 0,
        s.next_link() == slots[head as int].next_link(),
    ensures
        chain(slots[head as int].next_link(), list.drop_first(), slots.update(head as int, s)),
        all_vacant(list.drop_first(), slots.update(head as int, s)),
        !list.drop_first().contains(head),
{
    let rest = list.drop_first();
    assert(list[0] == head);
    assert forall|i: int| 0 <= i < rest.len() implies (#[trigger] rest[i]) != head by {
        assert(rest[i] == list[i + 1]);
    }
    if rest.contains(head) {
        let k = choose|k: int| 0 <= k < rest.len() && rest[k] == head;
        assert(rest[k] != head);
    }
    if list.len() > 1 {
        assert(slots[list[0] as int].next_link() == list[1]);
    }
    assert forall|i: int| 0 <= i < rest.len() implies (#[trigger] rest[i]) < slots.len() by {
        assert(rest[i] == list[i + 1]);
    }
    assert forall|i: int| 0 <= i < rest.len() - 1 implies slots[(#[trigger] rest[i]) as int].next_link() == rest[i + 1] by {
        assert(rest[i] == list[i + 1]);
    }
    assert forall|i: int| 0 <= i < rest.len() implies slots[(#[trigger] rest[i]) as int].is_vacant() by {
        assert(rest[i] == list[i + 1]);
    }
    lemma_chain_frame(slots[head as int].next_link(), rest, slots, head, s);
}

/// A page: a fixed number of slots, allocated on first use, and its two
/// free lists.
pub struct Page<T> {
    /// The number of slots on the page.
    pub(crate) size: usize,
    /// The address of the page's first slot within its shard.
    pub(crate) prev_sz: usize,
    /// The head of the local free list; only the owning thread touches it.
    pub(crate) local_head: usize,
    /// The slots freed by other threads.
    pub(crate) remote: TransferStack,
    /// The slots; empty until the page is first used.
    pub(crate) slots: Vec<Slot<T>>,
    /// The offsets on the local free list, in order.
    pub(crate) local_list: Ghost<Seq<usize>>,
    /// The offsets on the transfer stack, in order.
    pub(crate) remote_list: Ghost<Seq<usize>>,
}

impl<T> Page<T> {
    pub(crate) open spec fn is_allocated(&self) -> bool {
        self.slots.len() > 0
    }

    pub(crate) open spec fn wf(&self, c: Config) -> bool {
        &&& self.lists_wf(c)
        &&& self.is_allocated() ==> forall|k: int| 0 <= k < self.size ==> (#[trigger] self.slots@[k]).wf(c)
    }

    /// Everything `wf` asks but that each slot rests in a valid state.
    pub(crate) open spec fn lists_wf(&self, c: Config) -> bool {
        self.lists_wf_but(c, -1)
    }

    /// Everything `lists_wf` asks, but that the slot at `skip` may be vacant
    /// and on no list.
    pub(crate) open spec fn lists_wf_but(&self, c: Config, skip: int) -> bool {
        &&& 1 <= self.size < NULL
        &&& !self.is_allocated() ==> {
            &&& self.local_head == 0
            &&& self.remote.head_offset() == NULL
            &&& self.local_list@.len() == 0
            &&& self.remote_list@.len() == 0
        }
        &&& self.is_allocated() ==> {
            &&& self.slots.len() == self.size
            &&& chain(self.local_head, self.local_list@, self.slots@)
            &&& chain(self.remote.head_offset(), self.remote_list@, self.slots@)
            &&& all_vacant(self.local_list@, self.slots@)
            &&& all_vacant(self.remote_list@, self.slots@)
            &&& self.local_list@.disjoint(self.remote_list@)
            &&& vacant_listed(self.size as int, self.local_list@, self.remote_list@, self.slots@, skip)
        }
    }

    /// A page is full exactly where it is allocated and no slot of it is
    /// vacant.
    pub(crate) proof fn lemma_full_iff_occupied(&self, c: Config)
        requires
            self.wf(c),
        ensures
            self.is_full() == (self.is_allocated() && forall|off: int| 0 <= off < self.size ==> #[trigger] self.state_at(off) != REMOVING),
    {
        if self.is_allocated() {
            if self.local_list@.len() > 0 {
                assert(self.local_head == self.local_list@[0]);
                assert(self.local_list@[0] < self.slots.len());
                assert(self.slots@[self.local_list@[0] as int].is_vacant());
                assert(self.state_at(self.local_list@[0] as int) == REMOVING);
            }
            if self.remote_list@.len() > 0 {
                assert(self.remote.head_offset() == self.remote_list@[0]);
                assert(self.remote_list@[0] < self.slots.len());
                assert(self.slots@[self.remote_list@[0] as int].is_vacant());
                assert(self.state_at(self.remote_list@[0] as int) == REMOVING);
            }
            if self.is_full() {
                assert forall|off: int| 0 <= off < self.size implies #[trigger] self.state_at(off) != REMOVING by {
                    if self.state_at(off) == REMOVING {
                        assert(self.slots@[off].is_vacant());
                        assert(self.local_list@.contains(off as usize) || self.remote_list@.contains(off as usize));
                    }
                }
            }
        } else {
            assert(self.state_at(0) == REMOVING);
        }
    }

    /// The generation of the slot at `off`; an unallocated slot is in
    /// generation zero.
    pub(crate) open spec fn gen_at(&self, c: Config, off: int) -> u64 {
        if self.is_allocated() { self.slots@[off].gen(c) } else { 0 }
    }

    /// The state of the slot at `off`; an unallocated slot is vacant.
    pub(crate) open spec fn state_at(&self, off: int) -> u64 {
        if self.is_allocated() { self.slots@[off].state() } else { REMOVING }
    }

    /// The reference count of the slot at `off`.
    pub(crate) open spec fn refs_at(&self, c: Config, off: int) -> u64 {
        if self.is_allocated() { self.slots@[off].refs(c) } else { 0 }
    }

    /// The value stored at `off`.
    pub(crate) open spec fn value_at(&self, off: int) -> Option<T> {
        if self.is_allocated() { self.slots@[off].value() } else { None }
    }

    /// The slot at `off` holds a value reachable with generation `gen`.
    pub(crate) open spec fn live_at(&self, c: Config, off: int, gen: u64) -> bool {
        &&& 0 <= off < self.size
        &&& self.state_at(off) == NOT_REMOVED
        &&& self.gen_at(c, off) == gen
    }

    /// The slots at `off` of two pages agree.
    pub(crate) open spec fn same_at(&self, other: &Page<T>, c: Config, off: int) -> bool {
        &&& self.gen_at(c, off) == other.gen_at(c, off)
        &&& self.state_at(off) == other.state_at(off)
        &&& self.refs_at(c, off) == other.refs_at(c, off)
        &&& self.value_at(off) == other.value_at(off)
    }

    /// The slots of two pages agree everywhere but at `off`.
    pub(crate) open spec fn same_except(&self, other: &Page<T>, c: Config, off: int) -> bool {
        &&& self.size == other.size
        &&& self.prev_sz == other.prev_sz
        &&& forall|k: int| 0 <= k < self.size && k != off ==> #[trigger] self.same_at(other, c, k)
    }

    /// The offset the page hands out next: the head of its local list, else
    /// the head of its transfer stack; the first slot of a page not yet
    /// allocated.
    pub(crate) open spec fn first_free(&self) -> usize {
        if !self.is_allocated() {
            0
        } else if self.local_head != NULL {
            self.local_head
        } else {
            self.remote.head_offset()
        }
    }

    /// The slot at `off` heads the local free list (`local`) or the
    /// transfer stack.
    pub(crate) open spec fn heads_list(&self, off: int, local: bool) -> bool {
        if local { self.local_head as int == off } else { self.remote.head_offset() as int == off }
    }

    /// Neither free list has a slot to hand out.
    pub(crate) open spec fn is_full(&self) -> bool {
        self.is_allocated() && self.local_head == NULL && self.remote.head_offset() == NULL
    }

    /// Returns whether the slot at `off` is live in generation `gen` with
    /// room for one more reference.
    pub(crate) fn can_get(&self, c: &Config, off: usize, gen: u64) -> (r: bool)
        requires
            c.wf(),
            self.wf(*c),
        ensures
            r == (self.live_at(*c, off as int, gen) && self.refs_at(*c, off as int) < max_refs(*c)),
    {
        if off >= self.slots.len() {
            return false;
        }
        let w = self.slots[off].lifecycle;
        slot::state_of(w) == NOT_REMOVED && slot::gen_of(c, w) == gen
            && slot::refs_of(c, w) < crate::bitpack::make_mask(c.refs_len)
    }

    /// Returns the value at `off` where the slot holds one in generation
    /// `gen`, whether or not it is marked for removal.
    pub(crate) fn value_ref(&self, c: &Config, off: usize, gen: u64) -> (r: Option<&T>)
        requires
            c.wf(),
            self.wf(*c),
        ensures
            r == if 0 <= off < self.size && self.state_at(off as int) != REMOVING && self.gen_at(*c, off as int) == gen {
                match self.value_at(off as int) {
                    Some(v) => Some(&v),
                    None => None::<&T>,
                }
            } else {
                None::<&T>
            },
    {
        if off >= self.slots.len() {
            return None;
        }
        let w = self.slots[off].lifecycle;
        if slot::state_of(w) == REMOVING || slot::gen_of(c, w) != gen {
            return None;
        }
        self.slots[off].item()
    }

    /// The values of the first `n` slots that hold one not marked for
    /// removal, in slot order.
    pub(crate) open spec fn live_prefix(&self, n: int) -> Seq<T>
        decreases n,
    {
        if n <= 0 {
            Seq::empty()
        } else if self.state_at(n - 1) == NOT_REMOVED && self.value_at(n - 1) is Some {
            self.live_prefix(n - 1).push(self.value_at(n - 1).unwrap())
        } else {
            self.live_prefix(n - 1)
        }
    }

    /// The values of the page's slots that hold one not marked for
    /// removal, in slot order.
    pub(crate) open spec fn live_values(&self) -> Seq<T> {
        self.live_prefix(self.slots.len() as int)
    }

    /// Appends to `out` the value of every slot on the page that holds one
    /// not marked for removal, in slot order.
    pub(crate) fn collect_live<'a>(&'a self, c: &Config, out: &mut Vec<&'a T>)
        requires
            c.wf(),
            self.wf(*c),
        ensures
            final(out)@.len() == old(out)@.len() + self.live_values().len(),
            forall|i: int| 0 <= i < old(out)@.len() ==> final(out)@[i] == old(out)@[i],
            forall|i: int| 0 <= i < self.live_values().len() ==> *final(out)@[old(out)@.len() + i] == self.live_values()[i],
    {
        let ghost first = out@;
        let mut i: usize = 0;
        while i < self.slots.len()
            invariant
                c.wf(),
                self.wf(*c),
                i <= self.slots.len(),
                out@.len() == first.len() + self.live_prefix(i as int).len(),
                forall|j: int| 0 <= j < first.len() ==> out@[j] == first[j],
                forall|j: int| 0 <= j < self.live_prefix(i as int).len() ==> *out@[first.len() + j] == self.live_prefix(i as int)[j],
            decreases self.slots.len() - i,
        {
            if slot::state_of(self.slots[i].lifecycle) == NOT_REMOVED {
                match self.slots[i].item() {
                    Some(v) => {
                        out.push(v);
                    },
                    None => {},
                }
            }
            i = i + 1;
        }
    }

    /// Returns the number of guards on the slot at `off`.
    pub(crate) fn refs_now(&self, c: &Config, off: usize) -> (r: u64)
        requires
            c.wf(),
            self.wf(*c),
            off < self.size,
        ensures
            r == self.refs_at(*c, off as int),
    {
        if self.slots.len() == 0 {
            0
        } else {
            slot::refs_of(c, self.slots[off].lifecycle)
        }
    }

    /// Returns whether neither free list has a slot to hand out.
    pub(crate) fn full(&self) -> (r: bool)
        ensures
            r == self.is_full(),
    {
        self.slots.len() > 0 && self.local_head == NULL && self.remote.head == NULL
    }

    /// Returns an unallocated page of `size` slots whose first address is
    /// `prev_sz`.
    pub(crate) fn new(c: &Config, size: usize, prev_sz: usize) -> (r: Page<T>)
        requires
            c.wf(),
            1 <= size < NULL,
        ensures
            r.wf(*c),
            !r.is_allocated(),
            r.size == size,
            r.prev_sz == prev_sz,
    {
        Page {
            size,
            prev_sz,
            local_head: 0,
            remote: TransferStack::new(),
            slots: Vec::new(),
            local_list: Ghost(Seq::empty()),
            remote_list: Ghost(Seq::empty()),
        }
    }

    /// Allocates the slot array: every slot vacant in generation zero, all
    /// of them on the local list in order.
    fn allocate(&mut self, c: &Config)
        requires
            c.wf(),
            old(self).wf(*c),
            !old(self).is_allocated(),
        ensures
            final(self).wf(*c),
            final(self).is_allocated(),
            final(self).local_head != NULL,
            final(self).local_list@ == Seq::new(old(self).size as nat, |j: int| j as usize),
            final(self).remote_list@.len() == 0,
            final(self).size == old(self).size,
            final(self).prev_sz == old(self).prev_sz,
            forall|k: int| 0 <= k < final(self).size ==> #[trigger] final(self).same_at(old(self), *c, k),
    {
        let size = self.size;
        let mut slots: Vec<Slot<T>> = Vec::with_capacity(size);
        let mut i: usize = 0;
        while i < size
            invariant
                c.wf(),
                size < NULL,
                i <= size,
                slots.len() == i,
                forall|j: int| 0 <= j < i ==> {
                    &&& (#[trigger] slots@[j]).wf(*c)
                    &&& slots@[j].is_vacant()
                    &&& slots@[j].gen(*c) == 0
                    &&& slots@[j].value().is_none()
                    &&& slots@[j].next_link() == if j + 1 < size { (j + 1) as usize } else { NULL }
                },
            decreases size - i,
        {
            let next = if i + 1 < size { i + 1 } else { NULL };
            slots.push(Slot::new(c, next));
            i = i + 1;
        }
        let ghost list = Seq::new(size as nat, |j: int| j as usize);
        assert(chain(0, list, slots@)) by {
            assert(list[0] == 0);
            assert forall|a: int, b: int| 0 <= a < list.len() && 0 <= b < list.len() && a != b implies list[a] != list[b] by {}
            assert(list.last() == (size - 1) as usize);
        }
        assert forall|k: int| 0 <= k < size && (#[trigger] slots@[k]).is_vacant() implies list.contains(k as usize)
            || Seq::<usize>::empty().contains(k as usize) by {
            assert(list[k] == k as usize);
        }
        self.slots = slots;
        self.local_head = 0;
        self.local_list = Ghost(list);
    }

    /// Returns the offset of a free slot, taking the transfer stack over as
    /// the local list where the local list is empty; `None` where both are
    /// empty.
    fn get_head(&mut self, c: &Config) -> (r: Option<usize>)
        requires
            c.wf(),
            old(self).wf(*c),
            old(self).is_allocated(),
        ensures
            final(self).wf(*c),
            final(self).slots@ == old(self).slots@,
            final(self).size == old(self).size,
            final(self).prev_sz == old(self).prev_sz,
            r.is_none() == old(self).is_full(),
            r.is_none() ==> final(self).is_full(),
            r matches Some(h) ==> h == final(self).local_head && final(self).local_list@.len() > 0,
            old(self).local_head != NULL ==> r == Some(old(self).local_head),
            old(self).local_head != NULL ==> final(self).remote == old(self).remote,
            old(self).local_head == NULL && r.is_some() ==> r == Some(old(self).remote.head_offset()),
    {
        if self.local_head != NULL {
            return Some(self.local_head);
        }
        let popped = self.remote.pop_all();
        match popped {
            None => None,
            Some(h) => {
                self.local_head = h;
                proof {
                    assert(self.local_list@.len() == 0);
                    self.local_list@ = self.remote_list@;
                    self.remote_list@ = Seq::empty();
                }
                Some(h)
            },
        }
    }

    /// Takes a reference on the slot at `off` for generation `gen`.
    pub(crate) fn get(&mut self, c: &Config, off: usize, gen: u64) -> (r: bool)
        requires
            c.wf(),
            old(self).wf(*c),
        ensures
            final(self).wf(*c),
            r == (old(self).live_at(*c, off as int, gen) && old(self).refs_at(*c, off as int) < max_refs(*c)),
            final(self).same_except(old(self), *c, off as int),
            final(self).is_full() == old(self).is_full(),
            final(self).gen_at(*c, off as int) == old(self).gen_at(*c, off as int),
            final(self).state_at(off as int) == old(self).state_at(off as int),
            final(self).value_at(off as int) == old(self).value_at(off as int),
            final(self).refs_at(*c, off as int) == if r { (old(self).refs_at(*c, off as int) + 1) as u64 } else { old(self).refs_at(*c, off as int) },
    {
        if off >= self.slots.len() {
            return false;
        }
        let ok = self.slots[off].get(c, gen);
        proof {
            let s = self.slots@[off as int];
            if ok {
                assert(!old(self).local_list@.contains(off));
                assert(!old(self).remote_list@.contains(off));
                lemma_chain_frame(old(self).local_head, old(self).local_list@, old(self).slots@, off, s);
                lemma_chain_frame(old(self).remote.head_offset(), old(self).remote_list@, old(self).slots@, off, s);
            } else {
                assert(self.slots@ =~= old(self).slots@);
            }
            assert forall|k: int| 0 <= k < self.size && k != off implies #[trigger] self.same_at(old(self), *c, k) by {}
        }
        ok
    }
}

impl<T> Page<T> {
    /// Stores `value` in a free slot: returns its offset and generation, or
    /// `None` where the page has no free slot.
    pub(crate) fn insert(&mut self, c: &Config, value: T) -> (r: Option<(usize, u64)>)
        requires
            c.wf(),
            old(self).wf(*c),
        ensures
            final(self).wf(*c),
            r.is_none() == old(self).is_full(),
            r.is_none() ==> final(self).same_except(old(self), *c, -1) && final(self).is_full(),
            r.is_some() ==> {
                let (off, gen) = r.unwrap();
                &&& off < old(self).size
                &&& old(self).is_allocated() && old(self).local_head != NULL ==> off == old(self).local_head
                &&& off == old(self).first_free()
                &&& old(self).state_at(off as int) == REMOVING
                &&& gen == old(self).gen_at(*c, off as int)
                &&& final(self).live_at(*c, off as int, gen)
                &&& final(self).refs_at(*c, off as int) == 0
                &&& final(self).value_at(off as int) == Some(value)
                &&& final(self).same_except(old(self), *c, off as int)
            },
    {
        if self.slots.len() == 0 {
            self.allocate(c);
        }
        let ghost mid = *self;
        let head = self.get_head(c);
        assert(forall|k: int| 0 <= k < self.size ==> #[trigger] self.same_at(&mid, *c, k));
        match head {
            None => {
                assert(forall|k: int| 0 <= k < self.size && k != -1 ==> #[trigger] self.same_at(old(self), *c, k));
                None
            },
            Some(h) => {
                let ghost before = self.slots@;
                assert(self.local_list@[0] == h);
                assert(before[h as int].is_vacant());
                assert(h < self.size);
                assert(mid.same_at(old(self), *c, h as int));
                assert(self.same_at(&mid, *c, h as int));
                let gen = self.slots[h].insert(c, value);
                let next = self.slots[h].next();
                proof {
                    let s = self.slots@[h as int];
                    lemma_chain_pop(h, self.local_list@, before, s);
                    assert(!self.remote_list@.contains(h)) by {
                        assert(self.local_list@.contains(h));
                    }
                    lemma_chain_frame(self.remote.head_offset(), self.remote_list@, before, h, s);
                    assert(self.slots@ == before.update(h as int, s));
                    let l = self.local_list@;
                    let rl = self.remote_list@;
                    assert forall|k: int| 0 <= k < self.size && (#[trigger] self.slots@[k]).is_vacant() implies
                        l.drop_first().contains(k as usize) || rl.contains(k as usize) by {
                        assert(k != h);
                        assert(before[k].is_vacant());
                        if l.contains(k as usize) {
                            let i = choose|i: int| 0 <= i < l.len() && l[i] == k as usize;
                            assert(i != 0);
                            assert(l.drop_first()[i - 1] == k as usize);
                        }
                    }
                    self.local_list@ = self.local_list@.drop_first();
                }
                self.local_head = next;
                proof {
                    assert forall|k: int| 0 <= k < self.size implies (#[trigger] self.slots@[k]).wf(*c) by {
                        if k != h {
                            assert(mid.slots@[k].wf(*c));
                        }
                    }
                    assert forall|k: int| 0 <= k < self.size && k != h implies #[trigger] self.same_at(old(self), *c, k) by {
                        assert(mid.same_at(old(self), *c, k));
                    }
                }
                Some((h, gen))
            },
        }
    }

    /// Frees the slot at `off`, which has no reference left and is not
    /// vacant: advances its generation, leaves it vacant, and pushes it onto
    /// the local list (`local`) or the transfer stack.
    fn free_slot(&mut self, c: &Config, off: usize, local: bool)
        requires
            c.wf(),
            old(self).lists_wf_but(*c, off as int),
            old(self).is_allocated(),
            off < old(self).size,
            forall|k: int| 0 <= k < old(self).size && k != off ==> (#[trigger] old(self).slots@[k]).wf(*c),
            old(self).slots@[off as int].refs(*c) == 0,
            !old(self).local_list@.contains(off),
            !old(self).remote_list@.contains(off),
        ensures
            final(self).wf(*c),
            final(self).is_allocated(),
            !final(self).is_full(),
            final(self).same_except(old(self), *c, off as int),
            final(self).state_at(off as int) == REMOVING,
            final(self).refs_at(*c, off as int) == 0,
            final(self).gen_at(*c, off as int) == next_gen(*c, old(self).gen_at(*c, off as int)),
            final(self).value_at(off as int) == old(self).value_at(off as int),
            final(self).heads_list(off as int, local),
            local ==> final(self).remote == old(self).remote,
            !local ==> final(self).local_head == old(self).local_head,
    {
        let ghost before = self.slots@;
        proof {
            if self.local_list@.contains(off) {
                let i = choose|i: int| 0 <= i < self.local_list@.len() && self.local_list@[i] == off;
                assert(before[self.local_list@[i] as int].is_vacant());
            }
            if self.remote_list@.contains(off) {
                let i = choose|i: int| 0 <= i < self.remote_list@.len() && self.remote_list@[i] == off;
                assert(before[self.remote_list@[i] as int].is_vacant());
            }
        }
        self.slots[off].finish_removal(c);
        if local {
            let head = self.local_head;
            self.slots[off].set_next(head);
            self.local_head = off;
            proof {
                let s = self.slots@[off as int];
                lemma_chain_push(head, self.local_list@, before, off, s);
                lemma_chain_frame(self.remote.head_offset(), self.remote_list@, before, off, s);
                assert(self.slots@ == before.update(off as int, s));
                let l = self.local_list@;
                let rl = self.remote_list@;
                assert forall|k: int| 0 <= k < self.size && (#[trigger] self.slots@[k]).is_vacant() implies
                    seq![off].add(l).contains(k as usize) || rl.contains(k as usize) by {
                    if k == off {
                        assert(seq![off].add(l)[0] == off);
                    } else {
                        assert(before[k].is_vacant());
                        if l.contains(k as usize) {
                            let i = choose|i: int| 0 <= i < l.len() && l[i] == k as usize;
                            assert(seq![off].add(l)[i + 1] == k as usize);
                        }
                    }
                }
                self.local_list@ = seq![off].add(self.local_list@);
                assert(self.local_list@.disjoint(self.remote_list@)) by {
                    assert forall|x: usize| self.local_list@.contains(x) implies !self.remote_list@.contains(x) by {
                        let i = choose|i: int| 0 <= i < self.local_list@.len() && self.local_list@[i] == x;
                        if i > 0 {
                            assert(self.local_list@[i] == old(self).local_list@[i - 1]);
                            assert(old(self).local_list@.contains(x));
                        }
                    }
                }
            }
        } else {
            let ghost head = self.remote.head_offset();
            self.remote.push(off, &mut self.slots[off]);
            proof {
                let s = self.slots@[off as int];
                lemma_chain_push(head, self.remote_list@, before, off, s);
                lemma_chain_frame(self.local_head, self.local_list@, before, off, s);
                assert(self.slots@ == before.update(off as int, s));
                let l = self.local_list@;
                let rl = self.remote_list@;
                assert forall|k: int| 0 <= k < self.size && (#[trigger] self.slots@[k]).is_vacant() implies
                    l.contains(k as usize) || seq![off].add(rl).contains(k as usize) by {
                    if k == off {
                        assert(seq![off].add(rl)[0] == off);
                    } else {
                        assert(before[k].is_vacant());
                        if rl.contains(k as usize) {
                            let i = choose|i: int| 0 <= i < rl.len() && rl[i] == k as usize;
                            assert(seq![off].add(rl)[i + 1] == k as usize);
                        }
                    }
                }
                self.remote_list@ = seq![off].add(self.remote_list@);
                assert(self.local_list@.disjoint(self.remote_list@)) by {
                    assert forall|x: usize| self.remote_list@.contains(x) implies !self.local_list@.contains(x) by {
                        let i = choose|i: int| 0 <= i < self.remote_list@.len() && self.remote_list@[i] == x;
                        if i > 0 {
                            assert(self.remote_list@[i] == old(self).remote_list@[i - 1]);
                            assert(old(self).remote_list@.contains(x));
                        }
                    }
                }
            }
        }
        proof {
            assert forall|k: int| 0 <= k < self.size implies (#[trigger] self.slots@[k]).wf(*c) by {
                if k != off {
                    assert(before[k].wf(*c));
                }
            }
            assert forall|k: int| 0 <= k < self.size && k != off implies #[trigger] self.same_at(old(self), *c, k) by {
                assert(self.slots@[k] == before[k]);
            }
        }
    }

    /// Drops a reference on the slot at `off`. Where it was the last
    /// reference to a slot marked for removal, the removal completes: the
    /// value is moved out and returned, and the slot is freed onto the local
    /// list (`local`) or the transfer stack.
    pub(crate) fn release(&mut self, c: &Config, off: usize, local: bool) -> (r: Option<T>)
        requires
            c.wf(),
            old(self).wf(*c),
        ensures
            final(self).wf(*c),
            final(self).same_except(old(self), *c, off as int),
            old(self).is_full() && r.is_none() ==> final(self).is_full(),
            r.is_some() ==> final(self).is_allocated() && final(self).heads_list(off as int, local),
            r.is_some() == (old(self).refs_at(*c, off as int) == 1 && old(self).state_at(off as int) == MARKED
                && off < old(self).size),
            off < old(self).size ==> {
                &&& final(self).refs_at(*c, off as int) == if old(self).refs_at(*c, off as int) == 0 { 0 } else {
                    (old(self).refs_at(*c, off as int) - 1) as u64 }
                &&& r.is_none() ==> final(self).state_at(off as int) == old(self).state_at(off as int)
                    && final(self).gen_at(*c, off as int) == old(self).gen_at(*c, off as int)
                    && final(self).value_at(off as int) == old(self).value_at(off as int)
                &&& r.is_some() ==> final(self).state_at(off as int) == REMOVING
                    && final(self).gen_at(*c, off as int) == next_gen(*c, old(self).gen_at(*c, off as int))
                    && final(self).value_at(off as int).is_none()
                    && r == old(self).value_at(off as int)
            },
    {
        if off >= self.slots.len() {
            assert(forall|k: int| 0 <= k < self.size && k != off ==> #[trigger] self.same_at(old(self), *c, k));
            return None;
        }
        let ghost before = self.slots@;
        let last = self.slots[off].release(c);
        proof {
            let s = self.slots@[off as int];
            assert(!self.local_list@.contains(off) && !self.remote_list@.contains(off) || before[off as int].refs(*c) == 0) by {
                if self.local_list@.contains(off) {
                    let i = choose|i: int| 0 <= i < self.local_list@.len() && self.local_list@[i] == off;
                    assert(before[self.local_list@[i] as int].is_vacant());
                }
                if self.remote_list@.contains(off) {
                    let i = choose|i: int| 0 <= i < self.remote_list@.len() && self.remote_list@[i] == off;
                    assert(before[self.remote_list@[i] as int].is_vacant());
                }
            }
            if before[off as int].refs(*c) == 0 {
                assert(self.slots@ =~= before);
            } else {
                lemma_chain_frame(self.local_head, self.local_list@, before, off, s);
                lemma_chain_frame(self.remote.head_offset(), self.remote_list@, before, off, s);
            }
            assert forall|k: int| 0 <= k < self.size && k != off implies (#[trigger] self.slots@[k]).wf(*c) by {
                assert(before[k].wf(*c));
            }
        }
        if !last {
            proof {
                assert forall|k: int| 0 <= k < self.size && k != off implies #[trigger] self.same_at(old(self), *c, k) by {
                    assert(self.slots@[k] == before[k]);
                }
            }
            return None;
        }
        let ghost mid = *self;
        let item = self.slots[off].take_item();
        proof {
            let s = self.slots@[off as int];
            lemma_chain_frame(self.local_head, self.local_list@, mid.slots@, off, s);
            lemma_chain_frame(self.remote.head_offset(), self.remote_list@, mid.slots@, off, s);
        }
        let ghost mid2 = *self;
        self.free_slot(c, off, local);
        proof {
            assert forall|k: int| 0 <= k < self.size && k != off implies #[trigger] self.same_at(old(self), *c, k) by {
                assert(self.same_at(&mid2, *c, k));
                assert(mid2.slots@[k] == before[k]);
            }
        }
        item
    }
}

impl<T> Page<T> {
    /// Runs `f` on the value at `off` where the slot is live in generation
    /// `gen`, and returns whether it was.
    pub(crate) fn modify<F: FnOnce(&mut T)>(&mut self, c: &Config, off: usize, gen: u64, f: F) -> (r: bool)
        requires
            c.wf(),
            old(self).wf(*c),
            forall|x: &mut T| f.requires((x,)),
        ensures
            final(self).wf(*c),
            final(self).same_except(old(self), *c, off as int),
            r == old(self).live_at(*c, off as int, gen),
            final(self).state_at(off as int) == old(self).state_at(off as int),
            final(self).gen_at(*c, off as int) == old(self).gen_at(*c, off as int),
            final(self).refs_at(*c, off as int) == old(self).refs_at(*c, off as int),
            !r ==> final(self).value_at(off as int) == old(self).value_at(off as int),
            r ==> exists|x: &mut T| *x == old(self).value_at(off as int).unwrap() && f.ensures((x,), ())
                && final(self).value_at(off as int) == Some(*final(x)),
    {
        if off >= self.slots.len() {
            assert(forall|k: int| 0 <= k < self.size && k != off ==> #[trigger] self.same_at(old(self), *c, k));
            return false;
        }
        let w = self.slots[off].lifecycle;
        if slot::state_of(w) != NOT_REMOVED || slot::gen_of(c, w) != gen {
            assert(forall|k: int| 0 <= k < self.size && k != off ==> #[trigger] self.same_at(old(self), *c, k));
            return false;
        }
        let ghost before = self.slots@;
        proof {
            assert(before[off as int].wf(*c));
        }
        let item = self.slots[off].take_item();
        match item {
            None => {
                assert(false);
                false
            },
            Some(x) => {
                let mut x = x;
                f(&mut x);
                let slot_item = self.slots[off].item_mut();
                *slot_item = Some(x);
                proof {
                    let s = self.slots@[off as int];
                    assert(!self.local_list@.contains(off) && !self.remote_list@.contains(off)) by {
                        if self.local_list@.contains(off) {
                            let i = choose|i: int| 0 <= i < self.local_list@.len() && self.local_list@[i] == off;
                            assert(before[self.local_list@[i] as int].is_vacant());
                        }
                        if self.remote_list@.contains(off) {
                            let i = choose|i: int| 0 <= i < self.remote_list@.len() && self.remote_list@[i] == off;
                            assert(before[self.remote_list@[i] as int].is_vacant());
                        }
                    }
                    lemma_chain_frame(self.local_head, self.local_list@, before, off, s);
                    lemma_chain_frame(self.remote.head_offset(), self.remote_list@, before, off, s);
                    assert(self.slots@ == before.update(off as int, s));
                    assert forall|k: int| 0 <= k < self.size implies (#[trigger] self.slots@[k]).wf(*c) by {
                        if k != off {
                            assert(before[k].wf(*c));
                        }
                    }
                    assert forall|k: int| 0 <= k < self.size && k != off implies #[trigger] self.same_at(old(self), *c, k) by {
                        assert(self.slots@[k] == before[k]);
                    }
                }
                true
            },
        }
    }

    /// Marks the slot at `off` for removal where it is live in generation
    /// `gen`, and returns whether it was. Where no reference is left the
    /// removal completes at once: the value is moved out and returned as
    /// the second result, and the slot is freed onto the local list
    /// (`local`) or the transfer stack.
    pub(crate) fn remove(&mut self, c: &Config, off: usize, gen: u64, local: bool) -> (r: (bool, Option<T>))
        requires
            c.wf(),
            old(self).wf(*c),
        ensures
            final(self).wf(*c),
            final(self).same_except(old(self), *c, off as int),
            r.0 == old(self).live_at(*c, off as int, gen),
            r.0 ==> final(self).is_allocated(),
            r.0 && old(self).refs_at(*c, off as int) == 0 ==> final(self).heads_list(off as int, local),
            !r.0 ==> r.1.is_none() && final(self).same_at(old(self), *c, off as int) && final(self).is_full() == old(self).is_full(),
            r.0 && old(self).refs_at(*c, off as int) > 0 ==> {
                &&& r.1.is_none()
                &&& final(self).state_at(off as int) == MARKED
                &&& final(self).refs_at(*c, off as int) == old(self).refs_at(*c, off as int)
                &&& final(self).gen_at(*c, off as int) == old(self).gen_at(*c, off as int)
                &&& final(self).value_at(off as int) == old(self).value_at(off as int)
                &&& final(self).is_full() == old(self).is_full()
            },
            r.0 && old(self).refs_at(*c, off as int) == 0 ==> {
                &&& r.1 == old(self).value_at(off as int)
                &&& final(self).state_at(off as int) == REMOVING
                &&& final(self).refs_at(*c, off as int) == 0
                &&& final(self).gen_at(*c, off as int) == next_gen(*c, old(self).gen_at(*c, off as int))
                &&& final(self).value_at(off as int).is_none()
                &&& !final(self).is_full()
            },
    {
        if off >= self.slots.len() {
            assert(forall|k: int| 0 <= k < self.size && k != off ==> #[trigger] self.same_at(old(self), *c, k));
            return (false, None);
        }
        let ghost before = self.slots@;
        let marked = self.slots[off].mark(c, gen);
        if !marked {
            proof {
                assert(self.slots@ =~= before);
            }
            return (false, None);
        }
        let refs = slot::refs_of(c, self.slots[off].lifecycle);
        proof {
            let s = self.slots@[off as int];
            assert(!self.local_list@.contains(off) && !self.remote_list@.contains(off)) by {
                if self.local_list@.contains(off) {
                    let i = choose|i: int| 0 <= i < self.local_list@.len() && self.local_list@[i] == off;
                    assert(before[self.local_list@[i] as int].is_vacant());
                }
                if self.remote_list@.contains(off) {
                    let i = choose|i: int| 0 <= i < self.remote_list@.len() && self.remote_list@[i] == off;
                    assert(before[self.remote_list@[i] as int].is_vacant());
                }
            }
            lemma_chain_frame(self.local_head, self.local_list@, before, off, s);
            lemma_chain_frame(self.remote.head_offset(), self.remote_list@, before, off, s);
            assert forall|k: int| 0 <= k < self.size && k != off implies (#[trigger] self.slots@[k]).wf(*c) by {
                assert(before[k].wf(*c));
            }
            assert forall|k: int| 0 <= k < self.size && k != off implies #[trigger] self.same_at(old(self), *c, k) by {
                assert(self.slots@[k] == before[k]);
            }
        }
        if refs > 0 {
            return (true, None);
        }
        let ghost mid = *self;
        let item = self.slots[off].take_item();
        proof {
            let s = self.slots@[off as int];
            lemma_chain_frame(self.local_head, self.local_list@, mid.slots@, off, s);
            lemma_chain_frame(self.remote.head_offset(), self.remote_list@, mid.slots@, off, s);
        }
        let ghost mid2 = *self;
        self.free_slot(c, off, local);
        proof {
            assert forall|k: int| 0 <= k < self.size && k != off implies #[trigger] self.same_at(old(self), *c, k) by {
                assert(self.same_at(&mid2, *c, k));
                assert(mid2.slots@[k] == before[k]);
            }
        }
        (true, item)
    }

    /// Removes and returns the value at `off` where the slot is live in
    /// generation `gen`; the slot is freed onto the local list (`local`) or
    /// the transfer stack. The caller holds no guard on a live slot.
    pub(crate) fn take(&mut self, c: &Config, off: usize, gen: u64, local: bool) -> (r: Option<T>)
        requires
            c.wf(),
            old(self).wf(*c),
            old(self).live_at(*c, off as int, gen) ==> old(self).refs_at(*c, off as int) == 0,
        ensures
            final(self).wf(*c),
            final(self).same_except(old(self), *c, off as int),
            r.is_some() == old(self).live_at(*c, off as int, gen),
            r.is_none() ==> final(self).same_at(old(self), *c, off as int) && final(self).is_full() == old(self).is_full(),
            r.is_some() ==> {
                &&& r == old(self).value_at(off as int)
                &&& final(self).state_at(off as int) == REMOVING
                &&& final(self).refs_at(*c, off as int) == 0
                &&& final(self).gen_at(*c, off as int) == next_gen(*c, old(self).gen_at(*c, off as int))
                &&& final(self).value_at(off as int).is_none()
                &&& !final(self).is_full()
                &&& final(self).heads_list(off as int, local)
            },
    {
        let (_, item) = self.remove(c, off, gen, local);
        proof {
            if old(self).live_at(*c, off as int, gen) {
                assert(old(self).slots@[off as int].wf(*c));
            }
        }
        item
    }

    /// Puts `value` back into the vacant slot at `off`, keeping its state.
    pub(crate) fn restore_item(&mut self, c: &Config, off: usize, value: T)
        requires
            c.wf(),
            old(self).wf(*c),
            off < old(self).size,
            old(self).state_at(off as int) == REMOVING,
            old(self).is_allocated(),
        ensures
            final(self).wf(*c),
            final(self).same_except(old(self), *c, off as int),
            final(self).state_at(off as int) == REMOVING,
            final(self).refs_at(*c, off as int) == 0,
            final(self).gen_at(*c, off as int) == old(self).gen_at(*c, off as int),
            final(self).value_at(off as int) == Some(value),
            final(self).is_full() == old(self).is_full(),
            final(self).local_head == old(self).local_head,
            final(self).remote == old(self).remote,
    {
        let ghost before = self.slots@;
        let slot_item = self.slots[off].item_mut();
        *slot_item = Some(value);
        proof {
            let s = self.slots@[off as int];
            lemma_chain_keep(self.local_head, self.local_list@, before, off, s);
            lemma_chain_keep(self.remote.head_offset(), self.remote_list@, before, off, s);
            assert forall|k: int| 0 <= k < self.size implies (#[trigger] self.slots@[k]).wf(*c) by {
                if k != off {
                    assert(before[k].wf(*c));
                }
            }
            assert forall|k: int| 0 <= k < self.size && k != off implies #[trigger] self.same_at(old(self), *c, k) by {
                assert(self.slots@[k] == before[k]);
            }
        }
    }

    /// Moves the value out of the vacant slot at the head of the local list,
    /// first taking the transfer stack over where the local list is empty.
    /// Returns the slot's offset and former value, or `None` where the page
    /// has no free slot.
    pub(crate) fn take_free_item(&mut self, c: &Config) -> (r: Option<(usize, Option<T>)>)
        requires
            c.wf(),
            old(self).wf(*c),
        ensures
            final(self).wf(*c),
            r.is_none() == old(self).is_full(),
            r.is_none() ==> final(self).same_except(old(self), *c, -1) && final(self).is_full(),
            r.is_some() ==> {
                let (off, item) = r.unwrap();
                &&& final(self).is_allocated()
                &&& final(self).local_head == off
                &&& off == old(self).first_free()
                &&& off < old(self).size
                &&& old(self).state_at(off as int) == REMOVING
                &&& final(self).state_at(off as int) == REMOVING
                &&& final(self).gen_at(*c, off as int) == old(self).gen_at(*c, off as int)
                &&& final(self).value_at(off as int).is_none()
                &&& final(self).refs_at(*c, off as int) == old(self).refs_at(*c, off as int)
                &&& item == old(self).value_at(off as int)
                &&& final(self).same_except(old(self), *c, off as int)
            },
    {
        if self.slots.len() == 0 {
            self.allocate(c);
        }
        let ghost mid = *self;
        let head = self.get_head(c);
        assert(forall|k: int| 0 <= k < self.size ==> #[trigger] self.same_at(&mid, *c, k));
        match head {
            None => {
                assert(forall|k: int| 0 <= k < self.size && k != -1 ==> #[trigger] self.same_at(old(self), *c, k));
                None
            },
            Some(h) => {
                let ghost before = self.slots@;
                assert(self.local_list@[0] == h);
                assert(before[h as int].is_vacant());
                assert(h < self.size);
                assert(mid.same_at(old(self), *c, h as int));
                assert(self.same_at(&mid, *c, h as int));
                let item = self.slots[h].take_item();
                proof {
                    let s = self.slots@[h as int];
                    assert(before[h as int].wf(*c));
                    lemma_chain_keep(self.local_head, self.local_list@, before, h, s);
                    lemma_chain_keep(self.remote.head_offset(), self.remote_list@, before, h, s);
                    assert forall|k: int| 0 <= k < self.size implies (#[trigger] self.slots@[k]).wf(*c) by {
                        if k != h {
                            assert(before[k].wf(*c));
                        }
                    }
                    assert forall|k: int| 0 <= k < self.size && k != h implies #[trigger] self.same_at(old(self), *c, k) by {
                        assert(mid.same_at(old(self), *c, k));
                        assert(self.slots@[k] == before[k]);
                    }
                }
                Some((h, item))
            },
        }
    }
}

} // verus!
