//! A sharded slab: pre-allocated storage for many values of one type,
//! reached through compact `usize` keys.
//!
//! Each thread inserts into its own shard, picked by its thread id. A key
//! packs the slot's address within the shard, the shard's thread id, and the
//! slot's generation; the generation advances each time a slot is emptied,
//! so a key of a removed value never reaches the value stored after it.
//!
//! Every operation names the thread that performs it. A slot freed by its
//! shard's own thread goes onto the page's local free list; one freed by
//! another thread goes onto the page's transfer stack, which the owner takes
//! over once its local list runs dry.
use vstd::prelude::*;

pub mod bitpack;
pub mod cfg;
pub mod clear;
pub mod page;
pub mod pool;
pub mod shard;
pub mod tid;

pub use cfg::{Config, DefaultParams, Params};
pub use clear::Clear;
pub use page::Page;
pub use pool::{Pool, Ref, RefMut, OwnedRef};
pub use tid::{Registry, POISONED};

use page::slot::{max_refs, next_gen, REMOVING, MARKED};
use shard::{Shard, in_range};

verus! {

/// A sharded slab of values of type `T`.
pub struct Slab<T> {
    pub(crate) config: Config,
    /// One entry per thread id, each created on the thread's first insert.
    pub(crate) shards: Vec<Option<Shard<T>>>,
}

/// A reference to a value in a slab. While it is held, removing the value
/// only marks it; the value goes when the last guard is released.
pub struct Guard {
    pub(crate) key: usize,
}

impl Guard {
    pub open(crate) spec fn spec_key(&self) -> usize {
        self.key
    }

    /// Returns the key the guard was taken with.
    pub fn key(&self) -> (r: usize)
        ensures
            r == self.spec_key(),
    {
        self.key
    }
}

impl<T> Slab<T> {
    pub open(crate) spec fn cfg(&self) -> Config {
        self.config
    }

    pub open(crate) spec fn wf(&self) -> bool {
        &&& self.config.wf()
        &&& self.shards.len() == self.config.max_shards
        &&& forall|t: int| 0 <= t < self.shards.len() ==> ((#[trigger] self.shards@[t]) matches Some(sh)
            ==> sh.wf(self.config) && sh.tid == t)
    }

    /// The thread id, address and generation that `key` names.
    pub open(crate) spec fn key_tid(&self, key: usize) -> int {
        self.config.key_tid(key as u64) as int
    }

    pub open(crate) spec fn key_addr(&self, key: usize) -> nat {
        self.config.key_addr(key as u64) as nat
    }

    pub open(crate) spec fn key_gen(&self, key: usize) -> u64 {
        self.config.key_gen(key as u64)
    }

    /// Two keys name the same slot in the same generation.
    pub open(crate) spec fn same_entry(&self, k1: usize, k2: usize) -> bool {
        &&& self.key_tid(k1) == self.key_tid(k2)
        &&& self.key_addr(k1) == self.key_addr(k2)
        &&& self.key_gen(k1) == self.key_gen(k2)
    }

    /// The shard of thread `tid`, where it exists.
    pub open(crate) spec fn shard(&self, tid: int) -> Option<Shard<T>> {
        if 0 <= tid < self.shards.len() { self.shards@[tid] } else { None }
    }

    /// The value that `key` reaches: the one stored in its slot, where the
    /// slot holds a value of the key's generation not marked for removal.
    pub open(crate) spec fn lookup(&self, key: usize) -> Option<T> {
        match self.shard(self.key_tid(key)) {
            Some(sh) => if sh.live(self.config, self.key_addr(key), self.key_gen(key)) {
                sh.value(self.config, self.key_addr(key))
            } else {
                None
            },
            None => None,
        }
    }

    /// The number of guards on the slot that `key` names.
    pub open(crate) spec fn refs(&self, key: usize) -> u64 {
        match self.shard(self.key_tid(key)) {
            Some(sh) => if in_range(self.config, self.key_addr(key)) { sh.refs(self.config, self.key_addr(key)) } else { 0 },
            None => 0,
        }
    }

    /// The current generation of the slot at `addr` of thread `tid`'s shard;
    /// a slot not yet created is in generation zero.
    pub open(crate) spec fn generation(&self, tid: int, addr: nat) -> u64 {
        match self.shard(tid) {
            Some(sh) => if in_range(self.config, addr) { sh.gen(self.config, addr) } else { 0 },
            None => 0,
        }
    }

    /// The value a guard with `key` reads: the slot's value where the slot
    /// is of the key's generation and holds one, marked or not.
    pub open(crate) spec fn held(&self, key: usize) -> Option<T> {
        match self.shard(self.key_tid(key)) {
            Some(sh) => if in_range(self.config, self.key_addr(key))
                && sh.state(self.config, self.key_addr(key)) != REMOVING
                && sh.gen(self.config, self.key_addr(key)) == self.key_gen(key) {
                sh.value(self.config, self.key_addr(key))
            } else {
                None
            },
            None => None,
        }
    }

    /// Two keys name the same slot, in whatever generation.
    pub open(crate) spec fn same_slot(&self, k1: usize, k2: usize) -> bool {
        &&& self.key_tid(k1) == self.key_tid(k2)
        &&& self.key_addr(k1) == self.key_addr(k2)
    }

    /// Releasing the last guard on the slot of `key` completes a removal
    /// that was asked for while guards were held.
    pub open(crate) spec fn release_completes(&self, key: usize) -> bool {
        match self.shard(self.key_tid(key)) {
            Some(sh) => in_range(self.config, self.key_addr(key)) && sh.refs(self.config, self.key_addr(key)) == 1
                && sh.state(self.config, self.key_addr(key)) == MARKED,
            None => false,
        }
    }

    /// The largest number of guards a slot can have at once.
    pub open(crate) spec fn max_guards(&self) -> u64 {
        max_refs(self.config)
    }

    /// What `insert(tid, value)` does, from `self` to `next`, returning `r`:
    /// it fails exactly where `tid` is no thread id of the slab or its shard
    /// is full, changing nothing a key reaches. On success the new key names
    /// thread `tid` and a slot in its current generation that held nothing,
    /// reaches `value` with no guard, and nothing else changes.
    pub open(crate) spec fn insert_step(self, next: Slab<T>, tid: usize, value: T, r: Option<usize>) -> bool {
        &&& next.cfg() == self.cfg()
        &&& r.is_none() == (tid >= self.cfg().spec_max_shards() || self.shard_full(tid as int))
        &&& r.is_none() ==> forall|k: usize| #[trigger] next.lookup(k) == self.lookup(k)
        &&& r.is_none() ==> forall|u: int, a: nat| #[trigger] next.generation(u, a) == self.generation(u, a)
        &&& r.is_none() ==> forall|u: int, a: nat| #[trigger] next.vacant(u, a) == self.vacant(u, a)
        &&& r.is_none() ==> forall|k: usize| #[trigger] next.held(k) == self.held(k)
        &&& r.is_none() ==> forall|k: usize| #[trigger] next.stored(k) == self.stored(k)
        &&& r matches Some(key) ==> forall|k: usize| !next.same_slot(k, key) ==> #[trigger] next.held(k) == self.held(k)
        &&& r matches Some(key) ==> forall|k: usize| !next.same_slot(k, key) ==> #[trigger] next.stored(k) == self.stored(k)
        &&& r matches Some(key) ==> {
            let n = shard::page_of(self.cfg(), next.key_addr(key));
            &&& forall|b: nat| b < self.cfg().prev_size(n as nat) ==> !#[trigger] self.vacant(tid as int, b)
            &&& next.key_addr(key) == self.cfg().prev_size(n as nat) + self.next_offset(tid as int, n)
            &&& self.vacant(tid as int, next.key_addr(key))
            &&& forall|u: int, a: nat| #[trigger] next.vacant(u, a) == (self.vacant(u, a) && !(u == tid && a == next.key_addr(key)))
            &&& next.key_tid(key) == tid
            &&& key as u64 & !self.cfg().used_mask() == 0
            &&& self.lookup(key).is_none()
            &&& next.lookup(key) == Some(value)
            &&& next.refs(key) == 0
            &&& next.key_gen(key) == self.generation(tid as int, next.key_addr(key))
            &&& forall|k: usize| #[trigger] next.lookup(k) == if next.same_entry(k, key) {
                Some(value)
            } else {
                self.lookup(k)
            }
            &&& forall|k: usize| !next.same_entry(k, key) ==> #[trigger] next.refs(k) == self.refs(k)
            &&& forall|u: int, a: nat| #[trigger] next.generation(u, a) == self.generation(u, a)
        }
    }

    /// What `get(key)` does: it succeeds exactly where the key reaches a
    /// value with room for one more guard, and then counts one more guard
    /// on the slot; nothing any key reaches or any guard reads changes.
    pub open(crate) spec fn get_step(self, next: Slab<T>, key: usize, r: Option<Guard>) -> bool {
        &&& next.cfg() == self.cfg()
        &&& r.is_some() == (self.lookup(key).is_some() && self.refs(key) < self.max_guards())
        &&& r matches Some(g) ==> g.spec_key() == key && next.refs(key) == self.refs(key) + 1
        &&& r.is_none() ==> next.refs(key) == self.refs(key)
        &&& forall|k: usize| #[trigger] next.lookup(k) == self.lookup(k)
        &&& forall|k: usize| #[trigger] next.held(k) == self.held(k)
        &&& forall|k: usize| #[trigger] next.stored(k) == self.stored(k)
        &&& forall|k: usize| !next.same_slot(k, key) ==> #[trigger] next.refs(k) == self.refs(k)
        &&& forall|u: int, a: nat| #[trigger] next.generation(u, a) == self.generation(u, a)
        &&& forall|u: int, a: nat| #[trigger] next.vacant(u, a) == self.vacant(u, a)
    }

    /// What `remove(tid, key)` does: it reports whether the key reached a
    /// value, after which the key reaches nothing; where no guard was held
    /// the slot's generation advances at once.
    pub open(crate) spec fn remove_step(self, next: Slab<T>, key: usize, r: bool) -> bool {
        &&& next.cfg() == self.cfg()
        &&& r == self.lookup(key).is_some()
        &&& r && self.refs(key) == 0 ==> !next.shard_full(next.key_tid(key))
        &&& forall|k: usize| !next.same_slot(k, key) ==> #[trigger] next.held(k) == self.held(k)
        &&& forall|k: usize| !next.same_slot(k, key) ==> #[trigger] next.stored(k) == self.stored(k)
        &&& !(r && self.refs(key) == 0) ==> forall|k: usize| #[trigger] next.held(k) == self.held(k)
        &&& !(r && self.refs(key) == 0) ==> forall|k: usize| #[trigger] next.stored(k) == self.stored(k)
        &&& forall|u: int, a: nat| #[trigger] next.vacant(u, a) == (self.vacant(u, a) || (r && self.refs(key) == 0
            && u == next.key_tid(key) && a == next.key_addr(key)))
        &&& forall|k: usize| #[trigger] next.lookup(k) == if next.same_entry(k, key) {
            None
        } else {
            self.lookup(k)
        }
        &&& forall|k: usize| #[trigger] next.refs(k) == self.refs(k)
        &&& forall|u: int, a: nat| #[trigger] next.generation(u, a) == if r && u == next.key_tid(key)
            && a == next.key_addr(key) && self.refs(key) == 0 {
            next_gen(next.cfg(), self.generation(u, a))
        } else {
            self.generation(u, a)
        }
    }

    /// What `take(tid, key)` does: it returns the value the key reached,
    /// after which the key reaches nothing and, where there was a value,
    /// the slot's generation has advanced.
    pub open(crate) spec fn take_step(self, next: Slab<T>, key: usize, r: Option<T>) -> bool {
        &&& next.cfg() == self.cfg()
        &&& r == self.lookup(key)
        &&& r.is_some() ==> !next.shard_full(next.key_tid(key))
        &&& r.is_some() ==> next.stored(key).is_none() && next.held(key).is_none()
        &&& forall|k: usize| !next.same_slot(k, key) ==> #[trigger] next.held(k) == self.held(k)
        &&& forall|k: usize| !next.same_slot(k, key) ==> #[trigger] next.stored(k) == self.stored(k)
        &&& r.is_none() ==> forall|k: usize| #[trigger] next.held(k) == self.held(k)
        &&& r.is_none() ==> forall|k: usize| #[trigger] next.stored(k) == self.stored(k)
        &&& forall|u: int, a: nat| #[trigger] next.vacant(u, a) == (self.vacant(u, a) || (r.is_some()
            && u == next.key_tid(key) && a == next.key_addr(key)))
        &&& forall|k: usize| #[trigger] next.lookup(k) == if next.same_entry(k, key) {
            None
        } else {
            self.lookup(k)
        }
        &&& forall|k: usize| #[trigger] next.refs(k) == self.refs(k)
        &&& forall|u: int, a: nat| #[trigger] next.generation(u, a) == if r.is_some() && u == next.key_tid(key)
            && a == next.key_addr(key) {
            next_gen(next.cfg(), self.generation(u, a))
        } else {
            self.generation(u, a)
        }
    }

    /// On page `n` of thread `tid`'s shard, the local list and the transfer
    /// stack each run without repeating an offset to the `NULL` end, share
    /// no offset, and hold only vacant slots.
    pub open(crate) spec fn free_lists_ok(&self, tid: int, n: int) -> bool {
        let p = self.shard(tid).unwrap().pages@[n];
        p.is_allocated() ==> {
            &&& page::chain(p.local_head, p.local_list@, p.slots@)
            &&& page::chain(p.remote.head_offset(), p.remote_list@, p.slots@)
            &&& p.local_list@.disjoint(p.remote_list@)
            &&& page::all_vacant(p.local_list@, p.slots@)
            &&& page::all_vacant(p.remote_list@, p.slots@)
        }
    }

    /// The live values on the first `n` pages of `sh`, page by page.
    pub open(crate) spec fn pages_live(sh: Shard<T>, n: int) -> Seq<T>
        decreases n,
    {
        if n <= 0 {
            Seq::empty()
        } else {
            Self::pages_live(sh, n - 1) + sh.pages@[n - 1].live_values()
        }
    }

    /// The values held in slots not marked for removal, in the first `t`
    /// shards, shard by shard, page by page, slot by slot.
    pub open(crate) spec fn live_prefix(&self, t: int) -> Seq<T>
        decreases t,
    {
        if t <= 0 {
            Seq::empty()
        } else {
            match self.shards@[t - 1] {
                Some(sh) => self.live_prefix(t - 1) + Self::pages_live(sh, sh.pages.len() as int),
                None => self.live_prefix(t - 1),
            }
        }
    }

    /// All values held in slots not marked for removal, shard by shard,
    /// page by page, slot by slot.
    pub open(crate) spec fn live_values(&self) -> Seq<T> {
        self.live_prefix(self.shards.len() as int)
    }

    /// One removal of `key`, by `remove` or by `take`, that reports success
    /// as `ok`.
    pub open(crate) spec fn removal_step(self, next: Slab<T>, key: usize, ok: bool) -> bool {
        ||| self.remove_step(next, key, ok)
        ||| exists|r: Option<T>| self.take_step(next, key, r) && r.is_some() == ok
    }

    /// The value stored in the slot that `key` names, whatever its state.
    pub open(crate) spec fn stored(&self, key: usize) -> Option<T> {
        match self.shard(self.key_tid(key)) {
            Some(sh) => if in_range(self.config, self.key_addr(key)) { sh.value(self.config, self.key_addr(key)) } else { None },
            None => None,
        }
    }

    /// The slot that `key` names heads the local free list of its page
    /// (`local`) or the page's transfer stack.
    pub open(crate) spec fn heads_free_list(&self, key: usize, local: bool) -> bool {
        self.shard(self.key_tid(key)) matches Some(sh) && sh.heads_list(self.config, self.key_addr(key), local)
    }

    /// The slot at address `a` of thread `t`'s shard holds no value: `a` is
    /// below the capacity, and the shard does not exist yet or the slot is
    /// vacant.
    pub open(crate) spec fn vacant(&self, t: int, a: nat) -> bool {
        &&& a < self.capacity()
        &&& match self.shard(t) {
            Some(sh) => sh.state(self.config, a) == REMOVING,
            None => true,
        }
    }

    /// The offset that page `n` of thread `t`'s shard hands out next: the
    /// head of its local free list, else of its transfer stack; zero on a
    /// page or shard not used yet.
    pub open(crate) spec fn next_offset(&self, t: int, n: int) -> nat {
        match self.shard(t) {
            Some(sh) => sh.pages@[n].first_free() as nat,
            None => 0,
        }
    }

    /// The number of slots in a shard: `initial_page_size * (2^max_pages - 1)`,
    /// with the initial size rounded up to a power of two. A shard's slots
    /// have the addresses below it.
    pub open(crate) spec fn capacity(&self) -> nat {
        self.config.prev_size(self.config.max_pages as nat)
    }

    /// The shard of thread `tid` exists and every one of its slots holds a
    /// value, marked for removal or not.
    pub open(crate) spec fn shard_full(&self, tid: int) -> bool {
        self.shard(tid) matches Some(sh) && forall|a: nat| a < self.capacity() ==> #[trigger] sh.state(self.config, a) != REMOVING
    }

    /// A shard is full exactly where neither free list of any of its pages
    /// has a slot to hand out.
    pub(crate) proof fn lemma_shard_full(&self, tid: int)
        requires
            self.wf(),
        ensures
            self.shard_full(tid) == (self.shard(tid) matches Some(sh) && sh.is_full()),
    {
        if let Some(sh) = self.shard(tid) {
            sh.lemma_full_iff_occupied(self.config);
            assert forall|a: nat| true implies shard::in_range(self.config, a) == (a < self.capacity()) by {
                shard::lemma_in_range_iff(self.config, a);
            }
        }
    }

    /// A slot at an address of a shard that is vacant leaves the shard
    /// room.
    pub(crate) proof fn lemma_room(&self, tid: int, addr: nat)
        requires
            self.wf(),
            self.shard(tid) is Some,
            shard::in_range(self.config, addr),
            self.shard(tid).unwrap().state(self.config, addr) == REMOVING,
        ensures
            !self.shard_full(tid),
    {
        shard::lemma_in_range_iff(self.config, addr);
    }

    /// Returns an empty slab with the default configuration.
    pub fn new() -> (r: Slab<T>)
        ensures
            r.wf(),
            forall|k: usize| r.lookup(k).is_none(),
            forall|t: int| #[trigger] r.shard(t).is_none(),
            r.cfg().spec_max_threads() == DefaultParams::spec_max_threads(),
            r.cfg().spec_max_pages() == DefaultParams::spec_max_pages(),
            r.cfg().spec_initial_page_size() == DefaultParams::spec_initial_page_size(),
            r.cfg().spec_reserved_bits() == DefaultParams::spec_reserved_bits(),
    {
        Slab::new_with_config(Config::default_config())
    }

    /// Returns an empty slab with the given configuration.
    pub fn new_with_config(config: Config) -> (r: Slab<T>)
        requires
            config.wf(),
        ensures
            r.wf(),
            r.cfg() == config,
            forall|k: usize| r.lookup(k).is_none(),
            forall|t: int, a: nat| r.generation(t, a) == 0,
            forall|t: int| #[trigger] r.shard(t).is_none(),
    {
        let mut shards: Vec<Option<Shard<T>>> = Vec::with_capacity(config.max_shards);
        let mut i: usize = 0;
        while i < config.max_shards
            invariant
                shards.len() == i,
                i <= config.max_shards,
                forall|t: int| 0 <= t < i ==> (#[trigger] shards@[t]).is_none(),
            decreases config.max_shards - i,
        {
            shards.push(None);
            i = i + 1;
        }
        Slab { config, shards }
    }
}

impl<T> Slab<T> {
    /// Where only the slot at `addr` of shard `t` changed, every key that
    /// names another slot reaches what it reached before.
    pub(crate) proof fn lemma_frame(&self, old: &Slab<T>, t: int, addr: nat, k: usize)
        requires
            self.wf(),
            old.wf(),
            self.config == old.config,
            self.shards.len() == old.shards.len(),
            0 <= t < self.shards.len(),
            forall|u: int| 0 <= u < self.shards.len() && u != t ==> self.shards@[u] == old.shards@[u],
            self.shards@[t] is Some,
            old.shards@[t] is Some,
            self.shards@[t].unwrap().same_except(&old.shards@[t].unwrap(), self.config, addr),
            !(self.key_tid(k) == t && self.key_addr(k) == addr),
        ensures
            self.lookup(k) == old.lookup(k),
            self.refs(k) == old.refs(k),
            self.held(k) == old.held(k),
            self.stored(k) == old.stored(k),
    {
        let tk = self.key_tid(k);
        if tk == t {
            assert(self.shards@[t].unwrap().same_at(&old.shards@[t].unwrap(), self.config, self.key_addr(k)));
        } else if 0 <= tk < self.shards.len() {
            assert(self.shards@[tk] == old.shards@[tk]);
        }
    }

    /// Where only the slot at `addr` of shard `t` changed, every other
    /// slot keeps its generation.
    pub(crate) proof fn lemma_frame_gen(&self, old: &Slab<T>, t: int, addr: nat, u: int, a: nat)
        requires
            self.config == old.config,
            self.shards.len() == old.shards.len(),
            0 <= t < self.shards.len(),
            forall|v: int| 0 <= v < self.shards.len() && v != t ==> self.shards@[v] == old.shards@[v],
            self.shards@[t] is Some,
            old.shards@[t] is Some,
            self.shards@[t].unwrap().same_except(&old.shards@[t].unwrap(), self.config, addr),
            !(u == t && a == addr),
            self.config.wf(),
        ensures
            self.generation(u, a) == old.generation(u, a),
            self.vacant(u, a) == old.vacant(u, a),
    {
        shard::lemma_in_range_iff(self.config, a);
        if u == t {
            assert(self.shards@[t].unwrap().same_at(&old.shards@[t].unwrap(), self.config, a));
        } else if 0 <= u < self.shards.len() {
            assert(self.shards@[u] == old.shards@[u]);
        }
    }

    /// Creates the shard of thread `tid` where it does not exist yet. Every
    /// key reaches what it reached before.
    pub(crate) fn ensure_shard(&mut self, tid: usize)
        requires
            old(self).wf(),
            tid < old(self).shards.len(),
        ensures
            final(self).wf(),
            final(self).config == old(self).config,
            final(self).shards@[tid as int] is Some,
            forall|u: int| 0 <= u < final(self).shards.len() && u != tid ==> final(self).shards@[u] == old(self).shards@[u],
            old(self).shards@[tid as int] is Some ==> final(self).shards@ == old(self).shards@,
            forall|k: usize| #[trigger] final(self).lookup(k) == old(self).lookup(k),
            forall|k: usize| #[trigger] final(self).refs(k) == old(self).refs(k),
            forall|k: usize| #[trigger] final(self).held(k) == old(self).held(k),
            forall|k: usize| #[trigger] final(self).stored(k) == old(self).stored(k),
            forall|u: int, a: nat| #[trigger] final(self).generation(u, a) == old(self).generation(u, a),
            forall|u: int, a: nat| #[trigger] final(self).vacant(u, a) == old(self).vacant(u, a),
            forall|n: int| 0 <= n < final(self).cfg().spec_max_pages() ==> #[trigger] final(self).next_offset(tid as int, n) == old(self).next_offset(tid as int, n),
            !old(self).shard_full(tid as int) ==> !final(self).shard_full(tid as int),
            old(self).shard_full(tid as int) ==> final(self).shards@ == old(self).shards@,
    {
        if self.shards[tid].is_none() {
            let sh = Shard::new(&self.config, tid);
            self.shards.set(tid, Some(sh));
            proof {
                let c = self.config;
                assert forall|k: usize| #[trigger] self.lookup(k) == old(self).lookup(k) by {
                    if self.key_tid(k) == tid && in_range(c, self.key_addr(k)) {
                        assert(sh.state(c, self.key_addr(k)) == REMOVING);
                    }
                }
                assert forall|k: usize| #[trigger] self.refs(k) == old(self).refs(k) by {
                    if self.key_tid(k) == tid && in_range(c, self.key_addr(k)) {
                        assert(sh.refs(c, self.key_addr(k)) == 0);
                    }
                }
                assert forall|k: usize| #[trigger] self.held(k) == old(self).held(k) by {
                    if self.key_tid(k) == tid && in_range(c, self.key_addr(k)) {
                        assert(sh.state(c, self.key_addr(k)) == REMOVING);
                    }
                }
                assert forall|k: usize| #[trigger] self.stored(k) == old(self).stored(k) by {
                    if self.key_tid(k) == tid && in_range(c, self.key_addr(k)) {
                        assert(!sh.pages@[shard::page_of(c, self.key_addr(k))].is_allocated());
                    }
                }
                assert forall|u: int, a: nat| #[trigger] self.generation(u, a) == old(self).generation(u, a) by {
                    if u == tid && in_range(c, a) {
                        assert(sh.gen(c, a) == 0);
                    }
                }
                assert forall|u: int, a: nat| #[trigger] self.vacant(u, a) == old(self).vacant(u, a) by {
                    shard::lemma_in_range_iff(c, a);
                }
                assert(!sh.is_full());
                self.lemma_shard_full(tid as int);
            }
        }
    }

    /// Inserts `value` on the shard of thread `tid`, returning its key, or
    /// `None` where `tid` is no thread id of this slab or its shard is full.
    pub fn insert(&mut self, tid: usize, value: T) -> (r: Option<usize>)
        requires
            old(self).wf(),
        ensures
            final(self).wf(),
            old(self).insert_step(*final(self), tid, value, r),
    {
        if tid >= self.shards.len() {
            return None;
        }
        self.ensure_shard(tid);
        let ghost mid = *self;
        let mut sh = self.shards[tid].take().unwrap();
        proof {
            assert(self.shards@ == mid.shards@.update(tid as int, None));
        }
        let res = sh.insert(&self.config, value);
        match res {
            None => {
                self.shards.set(tid, Some(sh));
                proof {
                    assert(self.shards@ =~= mid.shards@);
                    mid.lemma_shard_full(tid as int);
                }
                None
            },
            Some((addr, gen)) => {
                proof {
                    mid.lemma_shard_full(tid as int);
                }
                let key = self.finish_store(Ghost(*old(self)), Ghost(mid), tid, sh, addr, gen, Ghost(value));
                Some(key)
            },
        }
    }

    /// Puts back the shard of thread `tid`, taken out of `mid` to store
    /// `value` at `addr` in generation `gen`, and returns the value's key.
    /// `start` is the slab before the shard was created where it had to be.
    pub(crate) fn finish_store(
        &mut self,
        Ghost(start): Ghost<Slab<T>>,
        Ghost(mid): Ghost<Slab<T>>,
        tid: usize,
        sh: Shard<T>,
        addr: usize,
        gen: u64,
        Ghost(value): Ghost<T>,
    ) -> (key: usize)
        requires
            start.wf(),
            mid.wf(),
            mid.config == start.config,
            forall|k: usize| #[trigger] mid.lookup(k) == start.lookup(k),
            forall|k: usize| #[trigger] mid.refs(k) == start.refs(k),
            forall|u: int, a: nat| #[trigger] mid.generation(u, a) == start.generation(u, a),
            forall|u: int, a: nat| #[trigger] mid.vacant(u, a) == start.vacant(u, a),
            forall|k: usize| #[trigger] mid.held(k) == start.held(k),
            forall|k: usize| #[trigger] mid.stored(k) == start.stored(k),
            forall|n: int| 0 <= n < mid.cfg().spec_max_pages() ==> #[trigger] mid.next_offset(tid as int, n) == start.next_offset(tid as int, n),
            forall|j: int| 0 <= j < shard::page_of(mid.config, addr as nat) ==> (#[trigger] mid.shards@[tid as int].unwrap().pages@[j]).is_full(),
            addr == mid.config.prev_size(shard::page_of(mid.config, addr as nat) as nat)
                + mid.shards@[tid as int].unwrap().pages@[shard::page_of(mid.config, addr as nat)].first_free(),
            !start.shard_full(tid as int),
            tid < mid.shards.len(),
            mid.shards@[tid as int] is Some,
            old(self).config == mid.config,
            old(self).shards@ == mid.shards@.update(tid as int, None),
            sh.wf(mid.config),
            sh.tid == tid,
            addr <= mid.config.max_addr(),
            in_range(mid.config, addr as nat),
            mid.shards@[tid as int].unwrap().state(mid.config, addr as nat) == REMOVING,
            gen == mid.shards@[tid as int].unwrap().gen(mid.config, addr as nat),
            sh.live(mid.config, addr as nat, gen),
            sh.refs(mid.config, addr as nat) == 0,
            sh.value(mid.config, addr as nat) == Some(value),
            sh.same_except(&mid.shards@[tid as int].unwrap(), mid.config, addr as nat),
        ensures
            final(self).wf(),
            start.insert_step(*final(self), tid, value, Some(key)),
    {
        proof {
            self.config.lemma_layout();
            assert(tid as nat <= crate::bitpack::mask_of(self.config.tid_len)) by {
                assert(tid < self.config.max_shards);
            }
            assert(gen <= crate::bitpack::mask_of(self.config.gen_len)) by {
                let p = mid.shards@[tid as int].unwrap().page_at(self.config, addr as nat);
                assert(p.wf(self.config));
                if p.is_allocated() {
                    assert(p.slots@[shard::off_of(self.config, addr as nat)].wf(self.config));
                    crate::bitpack::lemma_unpack_bounded(
                        p.slots@[shard::off_of(self.config, addr as nat)].lifecycle,
                        (2 + self.config.refs_len) as u64, self.config.gen_len);
                } else {
                    assert(gen == 0);
                }
            }
        }
        let key = self.config.pack_key(addr, tid, gen);
        self.shards.set(tid, Some(sh));
        proof {
            let c = self.config;
            assert(self.shards@ == mid.shards@.update(tid as int, Some(sh)));
            assert forall|t: int| 0 <= t < self.shards.len() implies ((#[trigger] self.shards@[t]) matches Some(s)
                ==> s.wf(self.config) && s.tid == t) by {
                if t != tid {
                    assert(self.shards@[t] == mid.shards@[t]);
                }
            }
            assert(self.wf());
            assert forall|k: usize| #[trigger] self.lookup(k) == if self.same_entry(k, key) {
                Some(value)
            } else {
                start.lookup(k)
            } by {
                assert(mid.lookup(k) == start.lookup(k));
                if self.key_tid(k) == tid && self.key_addr(k) == addr as nat {
                    if self.key_gen(k) != gen {
                        assert(!sh.live(c, addr as nat, self.key_gen(k)));
                    }
                } else {
                    self.lemma_frame(&mid, tid as int, addr as nat, k);
                }
            }
            assert forall|k: usize| !self.same_entry(k, key) implies #[trigger] self.refs(k) == start.refs(k) by {
                assert(mid.refs(k) == start.refs(k));
                if !(self.key_tid(k) == tid && self.key_addr(k) == addr as nat) {
                    self.lemma_frame(&mid, tid as int, addr as nat, k);
                }
            }
            assert forall|u: int, a: nat| #[trigger] self.generation(u, a) == start.generation(u, a) by {
                if !(u == tid && a == addr as nat) {
                    self.lemma_frame_gen(&mid, tid as int, addr as nat, u, a);
                } else {
                    assert(mid.generation(u, a) == start.generation(u, a));
                }
            }
            assert forall|u: int, a: nat| #[trigger] self.vacant(u, a) == (start.vacant(u, a) && !(u == tid && a == addr as nat)) by {
                assert(mid.vacant(u, a) == start.vacant(u, a));
                shard::lemma_in_range_iff(c, a);
                if !(u == tid && a == addr as nat) {
                    self.lemma_frame_gen(&mid, tid as int, addr as nat, u, a);
                }
            }
            assert forall|k: usize| !self.same_slot(k, key) implies #[trigger] self.held(k) == start.held(k) by {
                assert(mid.held(k) == start.held(k));
                self.lemma_frame(&mid, tid as int, addr as nat, k);
            }
            assert forall|k: usize| !self.same_slot(k, key) implies #[trigger] self.stored(k) == start.stored(k) by {
                assert(mid.stored(k) == start.stored(k));
                self.lemma_frame(&mid, tid as int, addr as nat, k);
            }
            let n = shard::page_of(c, addr as nat);
            let sh0 = mid.shards@[tid as int].unwrap();
            assert(mid.next_offset(tid as int, n) == start.next_offset(tid as int, n));
            assert forall|b: nat| b < c.prev_size(n as nat) implies !#[trigger] start.vacant(tid as int, b) by {
                assert(mid.vacant(tid as int, b) == start.vacant(tid as int, b));
                shard::lemma_below_page(c, b, n as nat);
                let m = shard::page_of(c, b);
                shard::lemma_off_in_page(c, b);
                assert(sh0.pages@[m].is_full());
                assert(sh0.pages@[m].wf(c));
                sh0.pages@[m].lemma_full_iff_occupied(c);
                assert(sh0.pages@[m].state_at(shard::off_of(c, b)) != REMOVING);
            }
            shard::lemma_in_range_iff(c, addr as nat);
            assert(mid.vacant(tid as int, addr as nat));
            assert(start.lookup(key) == mid.lookup(key));
            assert(mid.generation(tid as int, addr as nat) == gen);
            assert(start.generation(tid as int, addr as nat) == mid.generation(tid as int, addr as nat));
        }
        key
    }
}

impl<T> Slab<T> {
    /// A key reaches a value exactly where its slot is live in its generation.
    pub(crate) proof fn lemma_lookup_live(&self, k: usize)
        requires
            self.wf(),
        ensures
            self.lookup(k).is_some() == (self.shard(self.key_tid(k)) matches Some(sh)
                && sh.live(self.config, self.key_addr(k), self.key_gen(k))),
    {
        if let Some(sh) = self.shard(self.key_tid(k)) {
            let c = self.config;
            let a = self.key_addr(k);
            if sh.live(c, a, self.key_gen(k)) {
                let p = sh.page_at(c, a);
                assert(p.wf(c));
                shard::lemma_off_in_page(c, a);
                assert(p.slots@[shard::off_of(c, a)].wf(c));
            }
        }
    }

    /// Returns the shard index, address and generation that `key` names,
    /// where the shard exists.
    pub(crate) fn locate(&self, key: usize) -> (r: Option<(usize, usize, u64)>)
        requires
            self.wf(),
        ensures
            r.is_some() == self.shard(self.key_tid(key)).is_some(),
            r matches Some((t, a, g)) ==> t == self.key_tid(key) && a == self.key_addr(key) && g == self.key_gen(key)
                && t < self.shards.len() && a <= self.config.max_addr(),
    {
        let tid = self.config.unpack_tid(key);
        if tid >= self.shards.len() || self.shards[tid].is_none() {
            return None;
        }
        Some((tid, self.config.unpack_addr(key), self.config.unpack_gen(key)))
    }

    /// Where the slot at `addr` of shard `t` keeps its state, generation and
    /// value, and every other slot stays as it was, every key reaches what
    /// it reached before.
    proof fn lemma_frame_all(&self, old: &Slab<T>, t: int, addr: nat)
        requires
            self.wf(),
            old.wf(),
            self.config == old.config,
            self.shards.len() == old.shards.len(),
            0 <= t < self.shards.len(),
            forall|u: int| 0 <= u < self.shards.len() && u != t ==> self.shards@[u] == old.shards@[u],
            self.shards@[t] is Some,
            old.shards@[t] is Some,
            self.shards@[t].unwrap().same_except(&old.shards@[t].unwrap(), self.config, addr),
            in_range(self.config, addr) ==> {
                let (s1, s0) = (self.shards@[t].unwrap(), old.shards@[t].unwrap());
                &&& s1.state(self.config, addr) == s0.state(self.config, addr)
                &&& s1.gen(self.config, addr) == s0.gen(self.config, addr)
                &&& s1.value(self.config, addr) == s0.value(self.config, addr)
            },
        ensures
            forall|k: usize| #[trigger] self.lookup(k) == old.lookup(k),
            forall|k: usize| #[trigger] self.held(k) == old.held(k),
            forall|k: usize| #[trigger] self.stored(k) == old.stored(k),
            forall|u: int, a: nat| #[trigger] self.generation(u, a) == old.generation(u, a),
            forall|u: int, a: nat| #[trigger] self.vacant(u, a) == old.vacant(u, a),
    {
        assert forall|k: usize| #[trigger] self.stored(k) == old.stored(k) by {
            if !(self.key_tid(k) == t && self.key_addr(k) == addr) {
                self.lemma_frame(old, t, addr, k);
            }
        }
        assert forall|u: int, a: nat| #[trigger] self.vacant(u, a) == old.vacant(u, a) by {
            shard::lemma_in_range_iff(self.config, a);
            if !(u == t && a == addr) {
                self.lemma_frame_gen(old, t, addr, u, a);
            }
        }
        assert forall|k: usize| #[trigger] self.lookup(k) == old.lookup(k) by {
            if !(self.key_tid(k) == t && self.key_addr(k) == addr) {
                self.lemma_frame(old, t, addr, k);
            }
        }
        assert forall|k: usize| #[trigger] self.held(k) == old.held(k) by {
            if !(self.key_tid(k) == t && self.key_addr(k) == addr) {
                self.lemma_frame(old, t, addr, k);
            }
        }
        assert forall|u: int, a: nat| #[trigger] self.generation(u, a) == old.generation(u, a) by {
            if !(u == t && a == addr) {
                self.lemma_frame_gen(old, t, addr, u, a);
            }
        }
    }

    /// Takes a guard on the value that `key` reaches: succeeds where the key
    /// reaches a value and its slot has room for one more guard.
    pub fn get(&mut self, key: usize) -> (r: Option<Guard>)
        requires
            old(self).wf(),
        ensures
            final(self).wf(),
            old(self).get_step(*final(self), key, r),
    {
        proof {
            self.lemma_lookup_live(key);
        }
        match self.locate(key) {
            None => None,
            Some((tid, addr, gen)) => {
                let ghost before = *self;
                let mut sh = self.shards[tid].take().unwrap();
                let ok = sh.get(&self.config, addr, gen);
                self.shards.set(tid, Some(sh));
                proof {
                    self.lemma_frame_all(&before, tid as int, addr as nat);
                    assert forall|k: usize| !self.same_slot(k, key) implies #[trigger] self.refs(k) == old(self).refs(k) by {
                        self.lemma_frame(&before, tid as int, addr as nat, k);
                    }
                }
                if ok {
                    Some(Guard { key })
                } else {
                    None
                }
            },
        }
    }

    /// Returns whether `get(key)` would succeed.
    pub fn contains(&self, key: usize) -> (r: bool)
        requires
            self.wf(),
        ensures
            r == (self.lookup(key).is_some() && self.refs(key) < self.max_guards()),
    {
        proof {
            self.lemma_lookup_live(key);
        }
        match self.locate(key) {
            None => false,
            Some((tid, addr, gen)) => {
                let sh = self.shards[tid].as_ref().unwrap();
                sh.can_get(&self.config, addr, gen)
            },
        }
    }

    /// Returns the number of guards held on the slot that `key` names.
    pub fn guards(&self, key: usize) -> (r: u64)
        requires
            self.wf(),
        ensures
            r == self.refs(key),
    {
        match self.locate(key) {
            None => 0,
            Some((tid, addr, _gen)) => {
                let sh = self.shards[tid].as_ref().unwrap();
                sh.refs_now(&self.config, addr)
            },
        }
    }

    /// Returns the value that `guard` refers to.
    pub fn value(&self, guard: &Guard) -> (r: Option<&T>)
        requires
            self.wf(),
        ensures
            r == match self.held(guard.spec_key()) {
                Some(v) => Some(&v),
                None => None::<&T>,
            },
    {
        match self.locate(guard.key) {
            None => None,
            Some((tid, addr, gen)) => {
                let sh = self.shards[tid].as_ref().unwrap();
                sh.value_ref(&self.config, addr, gen)
            },
        }
    }

    /// Releases `guard` on behalf of thread `tid`. Where it was the last
    /// guard on a value whose removal was asked for, the value is dropped
    /// and its slot freed: onto the page's local list where `tid` owns the
    /// shard, else onto its transfer stack.
    pub fn release(&mut self, tid: usize, guard: Guard)
        requires
            old(self).wf(),
        ensures
            final(self).wf(),
            final(self).cfg() == old(self).cfg(),
            forall|k: usize| #[trigger] final(self).lookup(k) == old(self).lookup(k),
            final(self).refs(guard.spec_key()) == if old(self).refs(guard.spec_key()) == 0 { 0 } else {
                (old(self).refs(guard.spec_key()) - 1) as u64 },
            forall|k: usize| !final(self).same_slot(k, guard.spec_key()) ==> #[trigger] final(self).refs(k) == old(self).refs(k),
            old(self).release_completes(guard.spec_key()) ==> !final(self).shard_full(final(self).key_tid(guard.spec_key())),
            old(self).release_completes(guard.spec_key()) ==> final(self).stored(guard.spec_key()).is_none(),
            forall|k: usize| !final(self).same_slot(k, guard.spec_key()) ==> #[trigger] final(self).stored(k) == old(self).stored(k),
            forall|k: usize| !final(self).same_slot(k, guard.spec_key()) ==> #[trigger] final(self).held(k) == old(self).held(k),
            !old(self).release_completes(guard.spec_key()) ==> forall|k: usize| #[trigger] final(self).held(k) == old(self).held(k),
            !old(self).release_completes(guard.spec_key()) ==> forall|k: usize| #[trigger] final(self).stored(k) == old(self).stored(k),
            forall|u: int, a: nat| #[trigger] final(self).vacant(u, a) == (old(self).vacant(u, a) || (
                old(self).release_completes(guard.spec_key()) && u == final(self).key_tid(guard.spec_key())
                && a == final(self).key_addr(guard.spec_key()))),
            old(self).release_completes(guard.spec_key()) ==> final(self).heads_free_list(guard.spec_key(),
                tid == final(self).key_tid(guard.spec_key())),
            forall|u: int, a: nat| #[trigger] final(self).generation(u, a) == if u == final(self).key_tid(guard.spec_key())
                && a == final(self).key_addr(guard.spec_key()) && old(self).release_completes(guard.spec_key()) {
                next_gen(final(self).cfg(), old(self).generation(u, a))
            } else {
                old(self).generation(u, a)
            },
    {
        let key = guard.key;
        match self.locate(key) {
            None => {},
            Some((owner, addr, _gen)) => {
                let ghost before = *self;
                let mut sh = self.shards[owner].take().unwrap();
                let _removed = sh.release(&self.config, addr, owner == tid);
                self.shards.set(owner, Some(sh));
                proof {
                    let c = self.config;
                    if old(self).release_completes(key) {
                        self.lemma_room(owner as int, addr as nat);
                    }
                    assert forall|k: usize| !self.same_slot(k, key) implies #[trigger] self.held(k) == old(self).held(k) by {
                        self.lemma_frame(&before, owner as int, addr as nat, k);
                    }
                    assert forall|k: usize| !self.same_slot(k, key) implies #[trigger] self.stored(k) == old(self).stored(k) by {
                        self.lemma_frame(&before, owner as int, addr as nat, k);
                    }
                    if !old(self).release_completes(key) {
                        assert forall|k: usize| #[trigger] self.held(k) == old(self).held(k) by {
                            if !(self.key_tid(k) == owner && self.key_addr(k) == addr as nat) {
                                self.lemma_frame(&before, owner as int, addr as nat, k);
                            }
                        }
                        assert forall|k: usize| #[trigger] self.stored(k) == old(self).stored(k) by {
                            if !(self.key_tid(k) == owner && self.key_addr(k) == addr as nat) {
                                self.lemma_frame(&before, owner as int, addr as nat, k);
                            }
                        }
                    }
                    assert forall|u: int, a: nat| #[trigger] self.vacant(u, a) == (old(self).vacant(u, a) || (
                        old(self).release_completes(key) && u == self.key_tid(key) && a == self.key_addr(key))) by {
                        shard::lemma_in_range_iff(c, a);
                        if !(u == owner && a == addr as nat) {
                            self.lemma_frame_gen(&before, owner as int, addr as nat, u, a);
                        }
                    }
                    assert forall|k: usize| #[trigger] self.lookup(k) == old(self).lookup(k) by {
                        if self.key_tid(k) == owner && self.key_addr(k) == addr as nat {
                        } else {
                            self.lemma_frame(&before, owner as int, addr as nat, k);
                        }
                    }
                    assert forall|k: usize| !self.same_slot(k, key) implies #[trigger] self.refs(k) == old(self).refs(k) by {
                        self.lemma_frame(&before, owner as int, addr as nat, k);
                    }
                    assert forall|u: int, a: nat| #[trigger] self.generation(u, a) == if u == self.key_tid(key)
                        && a == self.key_addr(key) && old(self).release_completes(key) {
                        next_gen(c, old(self).generation(u, a))
                    } else {
                        old(self).generation(u, a)
                    } by {
                        if !(u == owner && a == addr as nat) {
                            self.lemma_frame_gen(&before, owner as int, addr as nat, u, a);
                        }
                    }
                }
            },
        }
    }
}

impl<T> Slab<T> {
    /// Asks, on behalf of thread `tid`, for the value that `key` reaches to
    /// be removed, and returns whether there was one. Where no guard is
    /// held on it, the value is dropped at once and its slot freed (onto the
    /// local list where `tid` owns the shard, else onto the transfer stack);
    /// otherwise the last guard released completes the removal. Either way
    /// the key reaches nothing afterwards.
    pub fn remove(&mut self, tid: usize, key: usize) -> (r: bool)
        requires
            old(self).wf(),
        ensures
            final(self).wf(),
            old(self).remove_step(*final(self), key, r),
            r && old(self).refs(key) == 0 ==> final(self).heads_free_list(key, tid == final(self).key_tid(key)),
            r && old(self).refs(key) == 0 ==> final(self).stored(key).is_none() && final(self).held(key).is_none(),
    {
        proof {
            self.lemma_lookup_live(key);
        }
        match self.locate(key) {
            None => false,
            Some((owner, addr, gen)) => {
                let ghost before = *self;
                let mut sh = self.shards[owner].take().unwrap();
                let (marked, _value) = sh.remove(&self.config, addr, gen, owner == tid);
                self.shards.set(owner, Some(sh));
                proof {
                    let c = self.config;
                    if marked && old(self).refs(key) == 0 {
                        self.lemma_room(owner as int, addr as nat);
                    }
                    assert forall|k: usize| !self.same_slot(k, key) implies #[trigger] self.held(k) == old(self).held(k) by {
                        self.lemma_frame(&before, owner as int, addr as nat, k);
                    }
                    assert forall|k: usize| !self.same_slot(k, key) implies #[trigger] self.stored(k) == old(self).stored(k) by {
                        self.lemma_frame(&before, owner as int, addr as nat, k);
                    }
                    if !(marked && old(self).refs(key) == 0) {
                        assert forall|k: usize| #[trigger] self.held(k) == old(self).held(k) by {
                            if !(self.key_tid(k) == owner && self.key_addr(k) == addr as nat) {
                                self.lemma_frame(&before, owner as int, addr as nat, k);
                            }
                        }
                        assert forall|k: usize| #[trigger] self.stored(k) == old(self).stored(k) by {
                            if !(self.key_tid(k) == owner && self.key_addr(k) == addr as nat) {
                                self.lemma_frame(&before, owner as int, addr as nat, k);
                            }
                        }
                    }
                    assert forall|u: int, a: nat| #[trigger] self.vacant(u, a) == (old(self).vacant(u, a) || (marked
                        && old(self).refs(key) == 0 && u == self.key_tid(key) && a == self.key_addr(key))) by {
                        shard::lemma_in_range_iff(c, a);
                        if !(u == owner && a == addr as nat) {
                            self.lemma_frame_gen(&before, owner as int, addr as nat, u, a);
                        }
                    }
                    assert forall|k: usize| #[trigger] self.lookup(k) == if self.same_entry(k, key) {
                        None
                    } else {
                        old(self).lookup(k)
                    } by {
                        if !(self.key_tid(k) == owner && self.key_addr(k) == addr as nat) {
                            self.lemma_frame(&before, owner as int, addr as nat, k);
                        }
                    }
                    assert forall|k: usize| #[trigger] self.refs(k) == old(self).refs(k) by {
                        if !(self.key_tid(k) == owner && self.key_addr(k) == addr as nat) {
                            self.lemma_frame(&before, owner as int, addr as nat, k);
                        }
                    }
                    assert forall|u: int, a: nat| #[trigger] self.generation(u, a) == if marked && u == self.key_tid(key)
                        && a == self.key_addr(key) && old(self).refs(key) == 0 {
                        next_gen(c, old(self).generation(u, a))
                    } else {
                        old(self).generation(u, a)
                    } by {
                        if !(u == owner && a == addr as nat) {
                            self.lemma_frame_gen(&before, owner as int, addr as nat, u, a);
                        }
                    }
                }
                marked
            },
        }
    }

    /// Removes and returns, on behalf of thread `tid`, the value that `key`
    /// reaches; its slot is freed onto the local list where `tid` owns the
    /// shard, else onto the transfer stack. No guard may be held on that
    /// value: a taker waits for the guards to go.
    pub fn take(&mut self, tid: usize, key: usize) -> (r: Option<T>)
        requires
            old(self).wf(),
            old(self).lookup(key).is_some() ==> old(self).refs(key) == 0,
        ensures
            final(self).wf(),
            old(self).take_step(*final(self), key, r),
            r.is_some() ==> final(self).heads_free_list(key, tid == final(self).key_tid(key)),
    {
        proof {
            self.lemma_lookup_live(key);
        }
        match self.locate(key) {
            None => None,
            Some((owner, addr, gen)) => {
                let ghost before = *self;
                let mut sh = self.shards[owner].take().unwrap();
                let value = sh.take(&self.config, addr, gen, owner == tid);
                self.shards.set(owner, Some(sh));
                proof {
                    let c = self.config;
                    if value.is_some() {
                        self.lemma_room(owner as int, addr as nat);
                    }
                    assert forall|k: usize| !self.same_slot(k, key) implies #[trigger] self.held(k) == old(self).held(k) by {
                        self.lemma_frame(&before, owner as int, addr as nat, k);
                    }
                    assert forall|k: usize| !self.same_slot(k, key) implies #[trigger] self.stored(k) == old(self).stored(k) by {
                        self.lemma_frame(&before, owner as int, addr as nat, k);
                    }
                    if value.is_none() {
                        assert forall|k: usize| #[trigger] self.held(k) == old(self).held(k) by {
                            if !(self.key_tid(k) == owner && self.key_addr(k) == addr as nat) {
                                self.lemma_frame(&before, owner as int, addr as nat, k);
                            }
                        }
                        assert forall|k: usize| #[trigger] self.stored(k) == old(self).stored(k) by {
                            if !(self.key_tid(k) == owner && self.key_addr(k) == addr as nat) {
                                self.lemma_frame(&before, owner as int, addr as nat, k);
                            }
                        }
                    }
                    assert forall|u: int, a: nat| #[trigger] self.vacant(u, a) == (old(self).vacant(u, a) || (value.is_some()
                        && u == self.key_tid(key) && a == self.key_addr(key))) by {
                        shard::lemma_in_range_iff(c, a);
                        if !(u == owner && a == addr as nat) {
                            self.lemma_frame_gen(&before, owner as int, addr as nat, u, a);
                        }
                    }
                    assert forall|k: usize| #[trigger] self.lookup(k) == if self.same_entry(k, key) {
                        None
                    } else {
                        old(self).lookup(k)
                    } by {
                        if !(self.key_tid(k) == owner && self.key_addr(k) == addr as nat) {
                            self.lemma_frame(&before, owner as int, addr as nat, k);
                        }
                    }
                    assert forall|k: usize| #[trigger] self.refs(k) == old(self).refs(k) by {
                        if !(self.key_tid(k) == owner && self.key_addr(k) == addr as nat) {
                            self.lemma_frame(&before, owner as int, addr as nat, k);
                        }
                    }
                    assert forall|u: int, a: nat| #[trigger] self.generation(u, a) == if value.is_some() && u == self.key_tid(key)
                        && a == self.key_addr(key) {
                        next_gen(c, old(self).generation(u, a))
                    } else {
                        old(self).generation(u, a)
                    } by {
                        if !(u == owner && a == addr as nat) {
                            self.lemma_frame_gen(&before, owner as int, addr as nat, u, a);
                        }
                    }
                }
                value
            },
        }
    }
}

impl<T> Default for Slab<T> {
    /// Returns an empty slab with the default configuration.
    fn default() -> (r: Slab<T>)
        ensures
            r.wf(),
            forall|k: usize| r.lookup(k).is_none(),
            forall|t: int| #[trigger] r.shard(t).is_none(),
            r.cfg().spec_max_threads() == DefaultParams::spec_max_threads(),
            r.cfg().spec_max_pages() == DefaultParams::spec_max_pages(),
            r.cfg().spec_initial_page_size() == DefaultParams::spec_initial_page_size(),
            r.cfg().spec_reserved_bits() == DefaultParams::spec_reserved_bits(),
    {
        Slab::new()
    }
}

impl<T> Slab<T> {
    /// A slot always has room for a first guard.
    proof fn lemma_max_guards(&self)
        requires
            self.cfg().wf(),
        ensures
            self.max_guards() >= 1,
    {
        let rl = self.config.refs_len;
        assert(u64::MAX >> ((64 - rl) as u64) >= 1) by (bit_vector)
            requires
                1 <= rl <= 64,
        ;
    }

    /// Insert then get: after `insert(tid, v)` returns `k`, a `get(k)` on
    /// any thread succeeds and its guard reads `v`.
    pub proof fn lemma_insert_then_get(s0: Slab<T>, s1: Slab<T>, s2: Slab<T>, tid: usize, v: T, k: usize, g: Option<Guard>)
        requires
            s0.wf(),
            s0.insert_step(s1, tid, v, Some(k)),
            s1.get_step(s2, k, g),
        ensures
            g.is_some(),
            s2.lookup(k) == Some(v),
            s2.held(k) == Some(v),
    {
        s1.lemma_max_guards();
    }

    /// A key that reaches a value keeps giving it: in any state where `k`
    /// reaches `v` with room for one more guard (as after `insert`, and
    /// after any later steps that leave `k` reaching `v`), `get(k)`
    /// succeeds on any thread, with a guard for `k` that reads `v`.
    pub proof fn lemma_get_reaches_value(s1: Slab<T>, s2: Slab<T>, k: usize, v: T, g: Option<Guard>)
        requires
            s1.wf(),
            s1.lookup(k) == Some(v),
            s1.refs(k) < s1.max_guards(),
            s1.get_step(s2, k, g),
        ensures
            g matches Some(guard) && guard.spec_key() == k,
            s2.held(k) == Some(v),
    {
    }

    /// Generations defeat ABA: after `k1 = insert(a)`, `take(k1)` and
    /// `k2 = insert(b)`, the key `k1` reaches nothing, even where `k2`
    /// names the same slot.
    pub proof fn lemma_no_aba(
        s0: Slab<T>,
        s1: Slab<T>,
        s2: Slab<T>,
        s3: Slab<T>,
        t1: usize,
        t2: usize,
        a: T,
        b: T,
        k1: usize,
        taken: Option<T>,
        k2: usize,
    )
        requires
            s0.wf(),
            s0.insert_step(s1, t1, a, Some(k1)),
            s1.take_step(s2, k1, taken),
            s2.insert_step(s3, t2, b, Some(k2)),
        ensures
            taken == Some(a),
            !s3.same_entry(k1, k2),
            s3.lookup(k1).is_none(),
    {
        let c = s0.cfg();
        let g1 = s1.key_gen(k1);
        assert(s2.lookup(k1).is_none()) by {
            assert(s2.same_entry(k1, k1));
        }
        assert(g1 <= crate::bitpack::mask_of(c.gen_len)) by {
            crate::bitpack::lemma_unpack_bounded(k1 as u64, (c.addr_len + c.tid_len) as u64, c.gen_len);
        }
        let m = crate::bitpack::mask_of(c.gen_len);
        let gl = c.gen_len;
        assert(m >= 1) by {
            assert(u64::MAX >> ((64 - gl) as u64) >= 1) by (bit_vector)
                requires
                    1 <= gl <= 64,
            ;
        }
        if s3.same_slot(k1, k2) {
            assert(s2.generation(s1.key_tid(k1), s1.key_addr(k1)) == next_gen(c, g1));
            assert(next_gen(c, g1) != g1);
        }
    }

    /// A removal happens once: of two removals of the same key, by `remove`
    /// or by `take`, one after the other, at most one succeeds.
    pub proof fn lemma_single_removal(s0: Slab<T>, s1: Slab<T>, s2: Slab<T>, key: usize, ok1: bool, ok2: bool)
        requires
            s0.removal_step(s1, key, ok1),
            s1.removal_step(s2, key, ok2),
        ensures
            !(ok1 && ok2),
    {
        assert(s1.same_entry(key, key));
        assert(s1.lookup(key).is_none()) by {
            if !s0.remove_step(s1, key, ok1) {
                let r = choose|r: Option<T>| s0.take_step(s1, key, r) && r.is_some() == ok1;
            }
        }
        if !s1.remove_step(s2, key, ok2) {
            let r = choose|r: Option<T>| s1.take_step(s2, key, r) && r.is_some() == ok2;
        }
    }

    /// No value is lost or taken twice: the value inserted under `k` is
    /// what `take(k)` returns, and a second `take(k)` returns nothing.
    pub proof fn lemma_taken_once(
        s0: Slab<T>,
        s1: Slab<T>,
        s2: Slab<T>,
        s3: Slab<T>,
        tid: usize,
        v: T,
        k: usize,
        r1: Option<T>,
        r2: Option<T>,
    )
        requires
            s0.wf(),
            s0.insert_step(s1, tid, v, Some(k)),
            s1.take_step(s2, k, r1),
            s2.take_step(s3, k, r2),
        ensures
            r1 == Some(v),
            r2.is_none(),
    {
        assert(s2.same_entry(k, k));
    }

    /// Reference counts stay in range: no slot counts more guards than its
    /// field holds.
    pub proof fn lemma_refs_bounded(s: Slab<T>, k: usize)
        requires
            s.wf(),
        ensures
            0 <= s.refs(k) <= s.max_guards(),
    {
        let c = s.cfg();
        if let Some(sh) = s.shard(s.key_tid(k)) {
            let a = s.key_addr(k);
            if in_range(c, a) {
                let p = sh.page_at(c, a);
                if p.is_allocated() {
                    crate::bitpack::lemma_unpack_bounded(p.slots@[shard::off_of(c, a)].lifecycle, 2, c.refs_len);
                }
            }
        }
    }

    /// Free lists stay well formed: on every page of every shard, the local
    /// list and the transfer stack each run without repeating an offset to
    /// the `NULL` end, share no offset, and hold only vacant slots.
    pub proof fn lemma_free_lists(s: Slab<T>, tid: int, n: int)
        requires
            s.wf(),
            s.shard(tid) is Some,
            0 <= n < s.cfg().spec_max_pages(),
        ensures
            s.free_lists_ok(tid, n),
    {
        assert(s.shard(tid).unwrap().pages@[n].wf(s.cfg()));
    }
}

impl<T> Slab<T> {
    /// Returns the values the slab holds that are not marked for removal,
    /// shard by shard, page by page, slot by slot. Exclusive access means
    /// no other thread can change the slab meanwhile.
    pub fn unique_iter(&mut self) -> (r: Vec<&T>)
        requires
            old(self).wf(),
        ensures
            *final(self) == *old(self),
            r@.len() == final(self).live_values().len(),
            forall|i: int| 0 <= i < r@.len() ==> *r@[i] == final(self).live_values()[i],
    {
        let this: &Slab<T> = self;
        let mut out: Vec<&T> = Vec::new();
        let mut t: usize = 0;
        while t < this.shards.len()
            invariant
                this.wf(),
                t <= this.shards.len(),
                out@.len() == this.live_prefix(t as int).len(),
                forall|i: int| 0 <= i < out@.len() ==> *out@[i] == this.live_prefix(t as int)[i],
            decreases this.shards.len() - t,
        {
            match this.shards[t].as_ref() {
                None => {},
                Some(sh) => {
                    let ghost base = this.live_prefix(t as int);
                    let mut n: usize = 0;
                    while n < sh.pages.len()
                        invariant
                            this.wf(),
                            t < this.shards.len(),
                            this.shards@[t as int] == Some(*sh),
                            sh.wf(this.config),
                            n <= sh.pages.len(),
                            base == this.live_prefix(t as int),
                            out@.len() == base.len() + Self::pages_live(*sh, n as int).len(),
                            forall|i: int| 0 <= i < out@.len() ==> *out@[i] == (base + Self::pages_live(*sh, n as int))[i],
                        decreases sh.pages.len() - n,
                    {
                        let ghost before = out@;
                        sh.pages[n].collect_live(&this.config, &mut out);
                        proof {
                            let lv = sh.pages@[n as int].live_values();
                            let prev = base + Self::pages_live(*sh, n as int);
                            let next = base + Self::pages_live(*sh, (n + 1) as int);
                            assert(Self::pages_live(*sh, (n + 1) as int) == Self::pages_live(*sh, n as int) + lv);
                            assert(next =~= prev + lv);
                            assert forall|i: int| 0 <= i < out@.len() implies *out@[i] == next[i] by {
                                if i < before.len() {
                                    assert(out@[i] == before[i]);
                                } else {
                                    assert(*out@[before.len() + (i - before.len())] == lv[i - before.len()]);
                                }
                            }
                        }
                        n = n + 1;
                    }
                    proof {
                        assert(this.live_prefix((t + 1) as int) == base + Self::pages_live(*sh, sh.pages.len() as int));
                    }
                },
            }
            t = t + 1;
        }
        out
    }
}

} // verus!
