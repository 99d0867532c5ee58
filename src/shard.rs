//! A shard: the pages that one thread inserts into. Page `n` holds
//! `initial_sz * 2^n` slots, so a shard's addresses run over all its pages
//! in order, and the page of an address follows from its bit length.
use vstd::prelude::*;
use crate::cfg::Config;
use crate::clear::Clear;
use crate::page::Page;
use crate::page::slot::{max_refs, next_gen, REMOVING, MARKED};

verus! {

pub struct Shard<T> {
    /// The id of the thread that owns the shard.
    pub(crate) tid: usize,
    /// The pages, smallest first.
    pub(crate) pages: Vec<Page<T>>,
}

/// The page that holds address `addr`.
pub(crate) open spec fn page_of(c: Config, addr: nat) -> int {
    c.page_index_of(addr) as int
}

/// The offset of address `addr` within its page.
pub(crate) open spec fn off_of(c: Config, addr: nat) -> int {
    addr - c.prev_size(c.page_index_of(addr))
}

/// Address `addr` lies on one of a shard's pages.
pub(crate) open spec fn in_range(c: Config, addr: nat) -> bool {
    c.page_index_of(addr) < c.max_pages
}

impl<T> Shard<T> {
    pub(crate) open spec fn wf(&self, c: Config) -> bool {
        &&& self.pages.len() == c.max_pages
        &&& forall|n: int| 0 <= n < self.pages.len() ==> {
            &&& (#[trigger] self.pages@[n]).wf(c)
            &&& self.pages@[n].size == c.page_size(n as nat)
            &&& self.pages@[n].prev_sz == c.prev_size(n as nat)
        }
    }

    /// The page that address `addr` falls on.
    pub(crate) open spec fn page_at(&self, c: Config, addr: nat) -> Page<T> {
        self.pages@[page_of(c, addr)]
    }

    /// The slot at `addr` holds a value reachable with generation `gen`.
    pub(crate) open spec fn live(&self, c: Config, addr: nat, gen: u64) -> bool {
        in_range(c, addr) && self.page_at(c, addr).live_at(c, off_of(c, addr), gen)
    }

    pub(crate) open spec fn value(&self, c: Config, addr: nat) -> Option<T> {
        self.page_at(c, addr).value_at(off_of(c, addr))
    }

    pub(crate) open spec fn refs(&self, c: Config, addr: nat) -> u64 {
        self.page_at(c, addr).refs_at(c, off_of(c, addr))
    }

    pub(crate) open spec fn gen(&self, c: Config, addr: nat) -> u64 {
        self.page_at(c, addr).gen_at(c, off_of(c, addr))
    }

    pub(crate) open spec fn state(&self, c: Config, addr: nat) -> u64 {
        self.page_at(c, addr).state_at(off_of(c, addr))
    }

    /// The slots at `addr` of two shards agree.
    pub(crate) open spec fn same_at(&self, other: &Shard<T>, c: Config, addr: nat) -> bool {
        in_range(c, addr) ==> self.page_at(c, addr).same_at(&other.page_at(c, addr), c, off_of(c, addr))
    }

    /// The slots of two shards agree at every address but `addr`.
    pub(crate) open spec fn same_except(&self, other: &Shard<T>, c: Config, addr: nat) -> bool {
        forall|a: nat| a != addr ==> #[trigger] self.same_at(other, c, a)
    }

    /// The slot at `addr` heads its page's local free list (`local`) or the
    /// page's transfer stack.
    pub(crate) open spec fn heads_list(&self, c: Config, addr: nat, local: bool) -> bool {
        self.page_at(c, addr).heads_list(off_of(c, addr), local)
    }

    /// No page of the shard has a free slot.
    pub(crate) open spec fn is_full(&self) -> bool {
        forall|n: int| 0 <= n < self.pages.len() ==> (#[trigger] self.pages@[n]).is_full()
    }

    /// Returns a shard for thread `tid` with all its pages unallocated.
    pub(crate) fn new(c: &Config, tid: usize) -> (r: Shard<T>)
        requires
            c.wf(),
        ensures
            r.wf(*c),
            r.tid == tid,
            forall|a: nat| in_range(*c, a) ==> r.state(*c, a) == REMOVING && r.gen(*c, a) == 0 && r.refs(*c, a) == 0,
            !r.is_full(),
            forall|n: int| 0 <= n < r.pages.len() ==> !(#[trigger] r.pages@[n]).is_allocated()
                && r.pages@[n].local_list@.len() == 0 && r.pages@[n].remote_list@.len() == 0,
    {
        proof {
            c.lemma_layout();
            vstd::arithmetic::power2::lemma2_to64();
        }
        let mut pages: Vec<Page<T>> = Vec::with_capacity(c.max_pages);
        let mut size: usize = c.initial_sz;
        let mut total: usize = 0;
        let mut n: usize = 0;
        assert(c.prev_size(0) == 0) by (nonlinear_arith)
            requires
                c.prev_size(0) == (c.initial_sz * (vstd::arithmetic::power2::pow2(0) - 1)) as nat,
                vstd::arithmetic::power2::pow2(0) == 1,
        ;
        while n < c.max_pages
            invariant
                c.wf(),
                n <= c.max_pages,
                pages.len() == n,
                n < c.max_pages ==> size as nat == c.page_size(n as nat),
                total as nat == c.prev_size(n as nat),
                forall|j: int| 0 <= j < n ==> {
                    &&& (#[trigger] pages@[j]).wf(*c)
                    &&& !pages@[j].is_allocated()
                    &&& pages@[j].size == c.page_size(j as nat)
                    &&& pages@[j].prev_sz == c.prev_size(j as nat)
                },
            decreases c.max_pages - n,
        {
            proof {
                c.lemma_prev_size_step(n as nat);
                c.lemma_layout();
                c.lemma_prev_size_monotonic((n + 1) as nat, c.max_pages as nat);
                vstd::arithmetic::power2::lemma_pow2_strictly_increases((c.addr_len - 1) as nat, (c.width - 1) as nat);
                if n + 1 < c.max_pages {
                    c.lemma_prev_size_step((n + 1) as nat);
                    c.lemma_prev_size_monotonic((n + 2) as nat, c.max_pages as nat);
                }
            }
            pages.push(Page::new(c, size, total));
            total = total + size;
            if n + 1 < c.max_pages {
                size = size * 2;
            }
            n = n + 1;
            proof {
                if n < c.max_pages {
                    c.lemma_prev_size_step((n - 1) as nat);
                }
            }
        }
        let r = Shard { tid, pages };
        proof {
            assert forall|a: nat| in_range(*c, a) implies r.state(*c, a) == REMOVING && r.gen(*c, a) == 0 && r.refs(*c, a) == 0 by {
                assert(!r.pages@[page_of(*c, a)].is_allocated());
            }
            assert(!r.pages@[0].is_allocated());
        }
        r
    }
}

/// The slot at offset `o` of page `n` has address `prev_size(n) + o`, and
/// that address leads back to page `n` and offset `o`.
pub(crate) proof fn lemma_addr_of(c: Config, n: nat, o: nat)
    requires
        c.wf(),
        o < c.page_size(n),
    ensures
        page_of(c, c.prev_size(n) + o) == n,
        off_of(c, c.prev_size(n) + o) == o,
{
    c.lemma_prev_size_step(n);
    c.lemma_page_index_unique(c.prev_size(n) + o, n);
}

/// An address before the first slot of page `n` lies on an earlier page.
pub(crate) proof fn lemma_below_page(c: Config, b: nat, n: nat)
    requires
        c.wf(),
        b < c.prev_size(n),
    ensures
        c.page_index_of(b) < n,
{
    let m = c.page_index_of(b);
    c.lemma_page_bounds(b);
    if m >= n {
        c.lemma_prev_size_monotonic(n, m);
    }
}

/// Every address in range has an offset within its page.
pub(crate) proof fn lemma_off_in_page(c: Config, a: nat)
    requires
        c.wf(),
    ensures
        0 <= off_of(c, a) < c.page_size(c.page_index_of(a)),
{
    c.lemma_page_bounds(a);
    c.lemma_prev_size_step(c.page_index_of(a));
}

/// The addresses on a shard's pages are those below the first address
/// past its last page.
pub(crate) proof fn lemma_in_range_iff(c: Config, a: nat)
    requires
        c.wf(),
    ensures
        in_range(c, a) == (a < c.prev_size(c.max_pages as nat)),
{
    let n = c.page_index_of(a);
    c.lemma_page_bounds(a);
    if n < c.max_pages {
        c.lemma_prev_size_monotonic(n + 1, c.max_pages as nat);
    } else {
        c.lemma_prev_size_monotonic(c.max_pages as nat, n);
    }
}

impl<T> Shard<T> {
    /// A shard is full exactly where no address on its pages is vacant.
    pub(crate) proof fn lemma_full_iff_occupied(&self, c: Config)
        requires
            c.wf(),
            self.wf(c),
        ensures
            self.is_full() == (forall|a: nat| in_range(c, a) ==> #[trigger] self.state(c, a) != REMOVING),
    {
        if self.is_full() {
            assert forall|a: nat| in_range(c, a) implies #[trigger] self.state(c, a) != REMOVING by {
                let n = page_of(c, a);
                lemma_off_in_page(c, a);
                assert(self.pages@[n].is_full());
                self.pages@[n].lemma_full_iff_occupied(c);
            }
        } else {
            let n = choose|n: int| 0 <= n < self.pages.len() && !(#[trigger] self.pages@[n]).is_full();
            let p = self.pages@[n];
            p.lemma_full_iff_occupied(c);
            let off: int = if !p.is_allocated() {
                0
            } else {
                choose|off: int| 0 <= off < p.size && #[trigger] p.state_at(off) == REMOVING
            };
            assert(p.state_at(off) == REMOVING);
            lemma_addr_of(c, n as nat, off as nat);
            let a = c.prev_size(n as nat) + off as nat;
            assert(in_range(c, a));
            assert(self.state(c, a) == REMOVING);
        }
    }

    /// Changing page `n` at offset `o` alone changes the shard at address
    /// `prev_size(n) + o` alone.
    proof fn lemma_frame(&self, old: &Shard<T>, c: Config, n: int, o: int)
        requires
            c.wf(),
            old.wf(c),
            0 <= n < old.pages.len(),
            0 <= o < c.page_size(n as nat),
            self.pages@ == old.pages@.update(n, self.pages@[n]),
            self.pages@[n].same_except(&old.pages@[n], c, o),
        ensures
            self.same_except(old, c, c.prev_size(n as nat) + o as nat),
    {
        let a0 = c.prev_size(n as nat) + o as nat;
        lemma_addr_of(c, n as nat, o as nat);
        assert forall|a: nat| a != a0 implies #[trigger] self.same_at(old, c, a) by {
            if in_range(c, a) {
                let m = page_of(c, a);
                lemma_off_in_page(c, a);
                if m == n {
                    assert(off_of(c, a) != o);
                    assert(self.pages@[n].same_at(&old.pages@[n], c, off_of(c, a)));
                } else {
                    assert(self.pages@[m] == old.pages@[m]);
                }
            }
        }
    }

    /// Replacing one page by a well-formed page of the same size and place
    /// keeps the shard well-formed.
    proof fn lemma_wf_update(&self, old: &Shard<T>, c: Config, n: int)
        requires
            old.wf(c),
            0 <= n < old.pages.len(),
            self.pages@ == old.pages@.update(n, self.pages@[n]),
            self.pages@[n].wf(c),
            self.pages@[n].size == old.pages@[n].size,
            self.pages@[n].prev_sz == old.pages@[n].prev_sz,
        ensures
            self.wf(c),
    {
        assert forall|j: int| 0 <= j < self.pages.len() implies {
            &&& (#[trigger] self.pages@[j]).wf(c)
            &&& self.pages@[j].size == c.page_size(j as nat)
            &&& self.pages@[j].prev_sz == c.prev_size(j as nat)
        } by {
            if j != n {
                assert(self.pages@[j] == old.pages@[j]);
            }
        }
    }

    /// Returns the page and offset of address `addr`, or `None` where it
    /// lies past the last page.
    fn locate(&self, c: &Config, addr: usize) -> (r: Option<(usize, usize)>)
        requires
            c.wf(),
            self.wf(*c),
            addr <= c.max_addr(),
        ensures
            r.is_some() == in_range(*c, addr as nat),
            r matches Some((n, off)) ==> n == page_of(*c, addr as nat) && off == off_of(*c, addr as nat)
                && off < c.page_size(n as nat),
    {
        let n = c.page_index(addr);
        if n >= self.pages.len() {
            return None;
        }
        proof {
            c.lemma_page_bounds(addr as nat);
            lemma_off_in_page(*c, addr as nat);
        }
        Some((n, addr - self.pages[n].prev_sz))
    }

    /// Returns the number of guards on the slot at `addr`, zero where the
    /// address is past the last page.
    pub(crate) fn refs_now(&self, c: &Config, addr: usize) -> (r: u64)
        requires
            c.wf(),
            self.wf(*c),
            addr <= c.max_addr(),
        ensures
            r == if in_range(*c, addr as nat) { self.refs(*c, addr as nat) } else { 0 },
    {
        match self.locate(c, addr) {
            None => 0,
            Some((n, off)) => self.pages[n].refs_now(c, off),
        }
    }

    /// Returns whether the slot at `addr` is live in generation `gen` with
    /// room for one more reference.
    pub(crate) fn can_get(&self, c: &Config, addr: usize, gen: u64) -> (r: bool)
        requires
            c.wf(),
            self.wf(*c),
            addr <= c.max_addr(),
        ensures
            r == (self.live(*c, addr as nat, gen) && self.refs(*c, addr as nat) < max_refs(*c)),
    {
        match self.locate(c, addr) {
            None => false,
            Some((n, off)) => self.pages[n].can_get(c, off, gen),
        }
    }

    /// Returns the value at `addr` where the slot holds one in generation
    /// `gen`, whether or not it is marked for removal.
    pub(crate) fn value_ref(&self, c: &Config, addr: usize, gen: u64) -> (r: Option<&T>)
        requires
            c.wf(),
            self.wf(*c),
            addr <= c.max_addr(),
        ensures
            r == if in_range(*c, addr as nat) && self.state(*c, addr as nat) != REMOVING && self.gen(*c, addr as nat) == gen {
                match self.value(*c, addr as nat) {
                    Some(v) => Some(&v),
                    None => None::<&T>,
                }
            } else {
                None::<&T>
            },
    {
        match self.locate(c, addr) {
            None => None,
            Some((n, off)) => {
                proof {
                    lemma_off_in_page(*c, addr as nat);
                }
                self.pages[n].value_ref(c, off, gen)
            },
        }
    }

    /// Stores `value` in the first page with a free slot; returns the
    /// slot's address and generation, or `None` where every page is full.
    pub(crate) fn insert(&mut self, c: &Config, value: T) -> (r: Option<(usize, u64)>)
        requires
            c.wf(),
            old(self).wf(*c),
        ensures
            final(self).wf(*c),
            final(self).tid == old(self).tid,
            r.is_none() == old(self).is_full(),
            r.is_none() ==> *final(self) == *old(self),
            r.is_some() ==> {
                let (addr, gen) = r.unwrap();
                &&& addr <= c.max_addr()
                &&& in_range(*c, addr as nat)
                &&& !old(self).pages@[page_of(*c, addr as nat)].is_full()
                &&& addr == c.prev_size(page_of(*c, addr as nat) as nat) + old(self).pages@[page_of(*c, addr as nat)].first_free()
                &&& forall|j: int| 0 <= j < page_of(*c, addr as nat) ==> (#[trigger] old(self).pages@[j]).is_full()
                &&& old(self).state(*c, addr as nat) == REMOVING
                &&& gen == old(self).gen(*c, addr as nat)
                &&& final(self).live(*c, addr as nat, gen)
                &&& final(self).refs(*c, addr as nat) == 0
                &&& final(self).value(*c, addr as nat) == Some(value)
                &&& final(self).same_except(old(self), *c, addr as nat)
            },
    {
        let mut n: usize = 0;
        while n < self.pages.len() && self.pages[n].full()
            invariant
                c.wf(),
                self.wf(*c),
                n <= self.pages.len(),
                forall|j: int| 0 <= j < n ==> (#[trigger] self.pages@[j]).is_full(),
            decreases self.pages.len() - n,
        {
            n = n + 1;
        }
        if n >= self.pages.len() {
            return None;
        }
        let ghost before = *self;
        let r = self.pages[n].insert(c, value);
        match r {
            None => {
                assert(false);
                None
            },
            Some((off, gen)) => {
                proof {
                    self.lemma_frame(&before, *c, n as int, off as int);
                    lemma_addr_of(*c, n as nat, off as nat);
                    c.lemma_layout();
                    c.lemma_prev_size_step(n as nat);
                    c.lemma_prev_size_monotonic((n + 1) as nat, c.max_pages as nat);
                    crate::bitpack::lemma_mask_is_pow2_minus_one(c.addr_len);
                    vstd::arithmetic::power2::lemma_pow2_strictly_increases((c.addr_len - 1) as nat, c.addr_len as nat);
                    assert forall|j: int| 0 <= j < self.pages.len() implies {
                        &&& (#[trigger] self.pages@[j]).wf(*c)
                        &&& self.pages@[j].size == c.page_size(j as nat)
                        &&& self.pages@[j].prev_sz == c.prev_size(j as nat)
                    } by {
                        if j != n {
                            assert(self.pages@[j] == before.pages@[j]);
                        }
                    }
                }
                Some((self.pages[n].prev_sz + off, gen))
            },
        }
    }
}

impl<T> Shard<T> {
    /// Runs `f` on the value at `addr` where the slot is live in generation
    /// `gen`, and returns whether it was.
    pub(crate) fn modify<F: FnOnce(&mut T)>(&mut self, c: &Config, addr: usize, gen: u64, f: F) -> (r: bool)
        requires
            c.wf(),
            old(self).wf(*c),
            addr <= c.max_addr(),
            forall|x: &mut T| f.requires((x,)),
        ensures
            final(self).wf(*c),
            final(self).tid == old(self).tid,
            final(self).same_except(old(self), *c, addr as nat),
            r == old(self).live(*c, addr as nat, gen),
            final(self).state(*c, addr as nat) == old(self).state(*c, addr as nat),
            final(self).gen(*c, addr as nat) == old(self).gen(*c, addr as nat),
            final(self).refs(*c, addr as nat) == old(self).refs(*c, addr as nat),
            !r ==> final(self).value(*c, addr as nat) == old(self).value(*c, addr as nat),
            r ==> exists|x: &mut T| *x == old(self).value(*c, addr as nat).unwrap() && f.ensures((x,), ())
                && final(self).value(*c, addr as nat) == Some(*final(x)),
    {
        let loc = self.locate(c, addr);
        match loc {
            None => {
                assert(forall|a: nat| a != addr ==> #[trigger] self.same_at(old(self), *c, a));
                false
            },
            Some((n, off)) => {
                let ghost before = *self;
                proof {
                    lemma_addr_of(*c, n as nat, off as nat);
                }
                let r = self.pages[n].modify(c, off, gen, f);
                proof {
                    self.lemma_frame(&before, *c, n as int, off as int);
                    self.lemma_wf_update(&before, *c, n as int);
                }
                r
            },
        }
    }

    /// Takes a reference on the slot at `addr` for generation `gen`.
    pub(crate) fn get(&mut self, c: &Config, addr: usize, gen: u64) -> (r: bool)
        requires
            c.wf(),
            old(self).wf(*c),
            addr <= c.max_addr(),
        ensures
            final(self).wf(*c),
            final(self).tid == old(self).tid,
            r == (old(self).live(*c, addr as nat, gen) && old(self).refs(*c, addr as nat) < max_refs(*c)),
            final(self).same_except(old(self), *c, addr as nat),
            final(self).is_full() == old(self).is_full(),
            final(self).state(*c, addr as nat) == old(self).state(*c, addr as nat),
            final(self).gen(*c, addr as nat) == old(self).gen(*c, addr as nat),
            final(self).value(*c, addr as nat) == old(self).value(*c, addr as nat),
            final(self).refs(*c, addr as nat) == if r { (old(self).refs(*c, addr as nat) + 1) as u64 } else {
                old(self).refs(*c, addr as nat) },
    {
        let loc = self.locate(c, addr);
        match loc {
            None => {
                assert(forall|a: nat| a != addr ==> #[trigger] self.same_at(old(self), *c, a));
                false
            },
            Some((n, off)) => {
                let ghost before = *self;
                let r = self.pages[n].get(c, off, gen);
                proof {
                    self.lemma_frame(&before, *c, n as int, off as int);
                    self.lemma_wf_update(&before, *c, n as int);
                    lemma_addr_of(*c, n as nat, off as nat);
                    assert forall|j: int| 0 <= j < self.pages.len() implies (#[trigger] self.pages@[j]).is_full() == before.pages@[j].is_full() by {
                        if j != n {
                            assert(self.pages@[j] == before.pages@[j]);
                        }
                    }
                    if before.is_full() {
                        assert forall|j: int| 0 <= j < self.pages.len() implies (#[trigger] self.pages@[j]).is_full() by {
                            assert(before.pages@[j].is_full());
                        }
                    }
                    if self.is_full() {
                        assert forall|j: int| 0 <= j < before.pages.len() implies (#[trigger] before.pages@[j]).is_full() by {
                            assert(self.pages@[j].is_full());
                        }
                    }
                }
                r
            },
        }
    }

    /// Drops a reference on the slot at `addr`; where it was the last one
    /// on a slot marked for removal, the removal completes and the value is
    /// returned.
    pub(crate) fn release(&mut self, c: &Config, addr: usize, local: bool) -> (r: Option<T>)
        requires
            c.wf(),
            old(self).wf(*c),
            addr <= c.max_addr(),
        ensures
            final(self).wf(*c),
            final(self).tid == old(self).tid,
            final(self).same_except(old(self), *c, addr as nat),
            r.is_some() ==> final(self).page_at(*c, addr as nat).is_allocated() && final(self).heads_list(*c, addr as nat, local),
            r.is_some() == (in_range(*c, addr as nat) && old(self).refs(*c, addr as nat) == 1
                && old(self).state(*c, addr as nat) == MARKED),
            in_range(*c, addr as nat) ==> {
                &&& final(self).refs(*c, addr as nat) == if old(self).refs(*c, addr as nat) == 0 { 0 } else {
                    (old(self).refs(*c, addr as nat) - 1) as u64 }
                &&& r.is_none() ==> final(self).state(*c, addr as nat) == old(self).state(*c, addr as nat)
                    && final(self).gen(*c, addr as nat) == old(self).gen(*c, addr as nat)
                    && final(self).value(*c, addr as nat) == old(self).value(*c, addr as nat)
                &&& r.is_some() ==> final(self).state(*c, addr as nat) == REMOVING
                    && final(self).gen(*c, addr as nat) == next_gen(*c, old(self).gen(*c, addr as nat))
                    && r == old(self).value(*c, addr as nat)
                    && final(self).value(*c, addr as nat).is_none()
            },
    {
        let loc = self.locate(c, addr);
        match loc {
            None => {
                assert(forall|a: nat| a != addr ==> #[trigger] self.same_at(old(self), *c, a));
                None
            },
            Some((n, off)) => {
                let ghost before = *self;
                let r = self.pages[n].release(c, off, local);
                proof {
                    self.lemma_frame(&before, *c, n as int, off as int);
                    self.lemma_wf_update(&before, *c, n as int);
                    lemma_addr_of(*c, n as nat, off as nat);
                }
                r
            },
        }
    }

    /// Marks the slot at `addr` for removal where it is live in generation
    /// `gen`; see `Page::remove`.
    pub(crate) fn remove(&mut self, c: &Config, addr: usize, gen: u64, local: bool) -> (r: (bool, Option<T>))
        requires
            c.wf(),
            old(self).wf(*c),
            addr <= c.max_addr(),
        ensures
            final(self).wf(*c),
            final(self).tid == old(self).tid,
            final(self).same_except(old(self), *c, addr as nat),
            r.0 == old(self).live(*c, addr as nat, gen),
            r.0 ==> final(self).page_at(*c, addr as nat).is_allocated(),
            r.0 && old(self).refs(*c, addr as nat) == 0 ==> final(self).heads_list(*c, addr as nat, local),
            !r.0 ==> r.1.is_none() && final(self).same_at(old(self), *c, addr as nat),
            r.0 && old(self).refs(*c, addr as nat) > 0 ==> {
                &&& r.1.is_none()
                &&& final(self).state(*c, addr as nat) == MARKED
                &&& final(self).refs(*c, addr as nat) == old(self).refs(*c, addr as nat)
                &&& final(self).gen(*c, addr as nat) == old(self).gen(*c, addr as nat)
                &&& final(self).value(*c, addr as nat) == old(self).value(*c, addr as nat)
            },
            r.0 && old(self).refs(*c, addr as nat) == 0 ==> {
                &&& r.1 == old(self).value(*c, addr as nat)
                &&& final(self).state(*c, addr as nat) == REMOVING
                &&& final(self).refs(*c, addr as nat) == 0
                &&& final(self).gen(*c, addr as nat) == next_gen(*c, old(self).gen(*c, addr as nat))
                &&& final(self).value(*c, addr as nat).is_none()
            },
    {
        let loc = self.locate(c, addr);
        match loc {
            None => {
                assert(forall|a: nat| a != addr ==> #[trigger] self.same_at(old(self), *c, a));
                (false, None)
            },
            Some((n, off)) => {
                let ghost before = *self;
                let r = self.pages[n].remove(c, off, gen, local);
                proof {
                    self.lemma_frame(&before, *c, n as int, off as int);
                    self.lemma_wf_update(&before, *c, n as int);
                    lemma_addr_of(*c, n as nat, off as nat);
                }
                r
            },
        }
    }

    /// Removes and returns the value at `addr` where the slot is live in
    /// generation `gen`; see `Page::take`.
    pub(crate) fn take(&mut self, c: &Config, addr: usize, gen: u64, local: bool) -> (r: Option<T>)
        requires
            c.wf(),
            old(self).wf(*c),
            addr <= c.max_addr(),
            old(self).live(*c, addr as nat, gen) ==> old(self).refs(*c, addr as nat) == 0,
        ensures
            final(self).wf(*c),
            final(self).tid == old(self).tid,
            final(self).same_except(old(self), *c, addr as nat),
            r.is_some() == old(self).live(*c, addr as nat, gen),
            r.is_none() ==> final(self).same_at(old(self), *c, addr as nat),
            r.is_some() ==> {
                &&& r == old(self).value(*c, addr as nat)
                &&& final(self).heads_list(*c, addr as nat, local)
                &&& final(self).state(*c, addr as nat) == REMOVING
                &&& final(self).refs(*c, addr as nat) == 0
                &&& final(self).gen(*c, addr as nat) == next_gen(*c, old(self).gen(*c, addr as nat))
                &&& final(self).value(*c, addr as nat).is_none()
            },
    {
        let loc = self.locate(c, addr);
        match loc {
            None => {
                assert(forall|a: nat| a != addr ==> #[trigger] self.same_at(old(self), *c, a));
                None
            },
            Some((n, off)) => {
                let ghost before = *self;
                proof {
                    lemma_addr_of(*c, n as nat, off as nat);
                }
                let r = self.pages[n].take(c, off, gen, local);
                proof {
                    self.lemma_frame(&before, *c, n as int, off as int);
                    self.lemma_wf_update(&before, *c, n as int);
                }
                r
            },
        }
    }
}

impl<T: Clear + Default> Shard<T> {
    /// Takes the value out of the free slot that the first page with room
    /// would hand out next, clears it (a slot never used gets a default
    /// value, cleared), and returns it with the page's index. The slot stays
    /// vacant at the head of that page's local list. `None` where every page
    /// is full.
    pub(crate) fn take_cleared(&mut self, c: &Config) -> (r: Option<(usize, T)>)
        requires
            c.wf(),
            old(self).wf(*c),
        ensures
            final(self).wf(*c),
            final(self).tid == old(self).tid,
            r.is_none() == old(self).is_full(),
            r.is_none() ==> *final(self) == *old(self),
            r matches Some((n, v)) ==> n < c.max_pages && v.is_clear(),
            r matches Some((n, v)) ==> forall|j: int| 0 <= j < n ==> (#[trigger] old(self).pages@[j]).is_full(),
            r matches Some((n, v)) ==> final(self).pages@[n as int].local_head == old(self).pages@[n as int].first_free(),
            r matches Some((n, v)) ==> final(self).pages@[n as int].is_allocated(),
            r matches Some((n, v)) ==> final(self).pages@[n as int].local_head < c.page_size(n as nat),
            r matches Some((n, v)) ==> old(self).state(*c, (c.prev_size(n as nat) + final(self).pages@[n as int].local_head) as nat) == REMOVING,
            r matches Some((n, v)) ==> final(self).same_except(old(self), *c, (c.prev_size(n as nat) + final(self).pages@[n as int].local_head) as nat),
            r.is_some() ==> forall|a: nat| in_range(*c, a) ==> #[trigger] final(self).state(*c, a) == old(self).state(*c, a),
            r.is_some() ==> forall|a: nat| in_range(*c, a) ==> #[trigger] final(self).gen(*c, a) == old(self).gen(*c, a),
            r.is_some() ==> forall|a: nat| in_range(*c, a) ==> #[trigger] final(self).refs(*c, a) == old(self).refs(*c, a),
    {
        let mut n: usize = 0;
        while n < self.pages.len() && self.pages[n].full()
            invariant
                c.wf(),
                self.wf(*c),
                *self == *old(self),
                n <= self.pages.len(),
                forall|j: int| 0 <= j < n ==> (#[trigger] self.pages@[j]).is_full(),
            decreases self.pages.len() - n,
        {
            n = n + 1;
        }
        if n >= self.pages.len() {
            return None;
        }
        let ghost before = *self;
        let taken = self.pages[n].take_free_item(c);
        match taken {
            None => {
                assert(false);
                None
            },
            Some((off, item)) => {
                proof {
                    self.lemma_frame(&before, *c, n as int, off as int);
                    self.lemma_wf_update(&before, *c, n as int);
                    lemma_addr_of(*c, n as nat, off as nat);
                    assert forall|a: nat| in_range(*c, a) implies {
                        &&& self.state(*c, a) == before.state(*c, a)
                        &&& self.gen(*c, a) == before.gen(*c, a)
                        &&& self.refs(*c, a) == before.refs(*c, a)
                    } by {
                        if a != c.prev_size(n as nat) + off {
                            assert(self.same_at(&before, *c, a));
                        } else {
                            assert(before.pages@[n as int].wf(*c));
                        }
                    }
                    assert(forall|a: nat| in_range(*c, a) ==> #[trigger] self.state(*c, a) == before.state(*c, a));
                    assert(forall|a: nat| in_range(*c, a) ==> #[trigger] self.gen(*c, a) == before.gen(*c, a));
                    assert(forall|a: nat| in_range(*c, a) ==> #[trigger] self.refs(*c, a) == before.refs(*c, a));
                }
                let mut v = match item {
                    Some(v) => v,
                    None => T::default(),
                };
                v.clear();
                Some((n, v))
            },
        }
    }

    /// Stores `value` in the slot at the head of page `n`'s local list, as
    /// `take_cleared` left it, and returns the slot's address and generation.
    pub(crate) fn put_on_page(&mut self, c: &Config, n: usize, value: T) -> (r: (usize, u64))
        requires
            c.wf(),
            old(self).wf(*c),
            n < c.max_pages,
            old(self).pages@[n as int].is_allocated(),
            old(self).pages@[n as int].local_head < c.page_size(n as nat),
        ensures
            final(self).wf(*c),
            final(self).tid == old(self).tid,
            r.0 == c.prev_size(n as nat) + old(self).pages@[n as int].local_head,
            page_of(*c, r.0 as nat) == n,
            r.0 <= c.max_addr(),
            in_range(*c, r.0 as nat),
            old(self).state(*c, r.0 as nat) == REMOVING,
            r.1 == old(self).gen(*c, r.0 as nat),
            final(self).live(*c, r.0 as nat, r.1),
            final(self).refs(*c, r.0 as nat) == 0,
            final(self).value(*c, r.0 as nat) == Some(value),
            final(self).same_except(old(self), *c, r.0 as nat),
    {
        let ghost before = *self;
        proof {
            assert(self.pages@[n as int].wf(*c));
        }
        let res = self.pages[n].insert(c, value);
        match res {
            None => {
                assert(false);
                (0, 0)
            },
            Some((off, gen)) => {
                proof {
                    self.lemma_frame(&before, *c, n as int, off as int);
                    self.lemma_wf_update(&before, *c, n as int);
                    lemma_addr_of(*c, n as nat, off as nat);
                    c.lemma_layout();
                    c.lemma_prev_size_step(n as nat);
                    c.lemma_prev_size_monotonic((n + 1) as nat, c.max_pages as nat);
                    crate::bitpack::lemma_mask_is_pow2_minus_one(c.addr_len);
                    vstd::arithmetic::power2::lemma_pow2_strictly_increases((c.addr_len - 1) as nat, c.addr_len as nat);
                }
                (self.pages[n].prev_sz + off, gen)
            },
        }
    }

    /// Puts `value` back into the vacant slot at `addr`.
    pub(crate) fn restore_item(&mut self, c: &Config, addr: usize, value: T)
        requires
            c.wf(),
            old(self).wf(*c),
            addr <= c.max_addr(),
            in_range(*c, addr as nat),
            old(self).state(*c, addr as nat) == REMOVING,
            old(self).page_at(*c, addr as nat).is_allocated(),
        ensures
            final(self).wf(*c),
            final(self).tid == old(self).tid,
            final(self).same_except(old(self), *c, addr as nat),
            final(self).state(*c, addr as nat) == REMOVING,
            final(self).gen(*c, addr as nat) == old(self).gen(*c, addr as nat),
            final(self).refs(*c, addr as nat) == old(self).refs(*c, addr as nat),
            final(self).value(*c, addr as nat) == Some(value),
            forall|l: bool| #[trigger] final(self).heads_list(*c, addr as nat, l) == old(self).heads_list(*c, addr as nat, l),
    {
        let loc = self.locate(c, addr);
        match loc {
            None => {},
            Some((n, off)) => {
                let ghost before = *self;
                proof {
                    assert(self.pages@[n as int].wf(*c));
                }
                self.pages[n].restore_item(c, off, value);
                proof {
                    self.lemma_frame(&before, *c, n as int, off as int);
                    self.lemma_wf_update(&before, *c, n as int);
                    lemma_addr_of(*c, n as nat, off as nat);
                }
            },
        }
    }
}

} // verus!
