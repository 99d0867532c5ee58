//! A pool: a slab whose values are cleared in place, not dropped, when
//! removed, so that their allocations serve the values created after them.
use vstd::prelude::*;
use crate::{Slab, Guard};
use crate::cfg::{Config, Params};
use crate::clear::Clear;
use crate::page::slot::{next_gen, REMOVING};
use crate::shard::{in_range, Shard};

verus! {

/// A pool of values of type `T`, each reached through a key.
pub struct Pool<T> {
    pub(crate) inner: Slab<T>,
}

/// A shared reference to a value in a pool, as `Pool::get` hands it out.
pub struct Ref {
    pub(crate) key: usize,
}

/// The handle of a value just created in a pool.
pub struct RefMut {
    pub(crate) key: usize,
}

/// A shared reference to a value in a pool, as `Pool::get_owned` hands it
/// out.
pub struct OwnedRef {
    pub(crate) key: usize,
}

impl Ref {
    pub open(crate) spec fn spec_key(&self) -> usize {
        self.key
    }

    /// Returns the key the reference was taken with.
    pub fn key(&self) -> (r: usize)
        ensures
            r == self.spec_key(),
    {
        self.key
    }
}

impl RefMut {
    pub open(crate) spec fn spec_key(&self) -> usize {
        self.key
    }

    /// Returns the key of the created value.
    pub fn key(&self) -> (r: usize)
        ensures
            r == self.spec_key(),
    {
        self.key
    }
}

impl OwnedRef {
    pub open(crate) spec fn spec_key(&self) -> usize {
        self.key
    }

    /// Returns the key the reference was taken with.
    pub fn key(&self) -> (r: usize)
        ensures
            r == self.spec_key(),
    {
        self.key
    }
}

/// The key a creation handed out, if any.
pub open spec fn created_key(r: Option<RefMut>) -> Option<usize> {
    match r {
        Some(g) => Some(g.spec_key()),
        None => None,
    }
}

/// A value is there, and it is cleared.
pub open spec fn holds_cleared<T: Clear>(v: Option<T>) -> bool {
    match v {
        Some(x) => x.is_clear(),
        None => false,
    }
}

/// The slab guard that a pool reference stands for.
pub open(crate) spec fn ref_guard(r: Option<Ref>) -> Option<Guard> {
    match r {
        Some(g) => Some(Guard { key: g.key }),
        None => None,
    }
}

/// The slab guard that an owned pool reference stands for.
pub open(crate) spec fn owned_guard(r: Option<OwnedRef>) -> Option<Guard> {
    match r {
        Some(g) => Some(Guard { key: g.key }),
        None => None,
    }
}

impl<T> Pool<T> {
    /// The slab that holds the pool's values.
    pub open(crate) spec fn slab(&self) -> Slab<T> {
        self.inner
    }

    pub open(crate) spec fn wf(&self) -> bool {
        self.inner.wf()
    }
}

impl<T: Clear + Default> Pool<T> {
    /// What `create(tid)` does, from `self` to `next`, returning `r`: it
    /// fails, changing nothing a key reaches, exactly where `tid` is no
    /// thread id of the pool or its shard is full; on success it stores a
    /// cleared value as `insert` would store a given one.
    pub open(crate) spec fn create_step(self, next: Pool<T>, tid: usize, r: Option<RefMut>) -> bool {
        &&& r.is_none() == (tid >= self.slab().cfg().spec_max_shards() || self.slab().shard_full(tid as int))
        &&& r.is_none() ==> forall|k: usize| #[trigger] next.slab().lookup(k) == self.slab().lookup(k)
        &&& r.is_none() ==> forall|u: int, a: nat| #[trigger] next.slab().generation(u, a) == self.slab().generation(u, a)
        &&& r matches Some(g) ==> self.slab().insert_step(next.slab(), tid, next.slab().lookup(g.spec_key()).unwrap(), Some(g.spec_key()))
        &&& r matches Some(g) ==> next.slab().lookup(g.spec_key()).unwrap().is_clear()
    }

    /// What `clear(tid, key)` does: it removes as `Slab::remove` does, and
    /// where no reference was held the slot keeps the value, cleared.
    pub open(crate) spec fn clear_step(self, next: Pool<T>, key: usize, r: bool) -> bool {
        &&& self.slab().remove_step(next.slab(), key, r)
        &&& r && self.slab().refs(key) == 0 ==> holds_cleared(next.slab().stored(key))
    }

    /// Returns an empty pool with the default configuration.
    pub fn new() -> (r: Pool<T>)
        ensures
            r.wf(),
            forall|k: usize| r.slab().lookup(k).is_none(),
            forall|t: int| #[trigger] r.slab().shard(t).is_none(),
            r.slab().cfg().spec_max_threads() == crate::DefaultParams::spec_max_threads(),
            r.slab().cfg().spec_max_pages() == crate::DefaultParams::spec_max_pages(),
            r.slab().cfg().spec_initial_page_size() == crate::DefaultParams::spec_initial_page_size(),
            r.slab().cfg().spec_reserved_bits() == crate::DefaultParams::spec_reserved_bits(),
    {
        Pool { inner: Slab::new() }
    }

    /// Returns an empty pool with the given configuration.
    pub fn new_with_config(config: Config) -> (r: Pool<T>)
        requires
            config.wf(),
        ensures
            r.wf(),
            r.slab().cfg() == config,
            forall|k: usize| r.slab().lookup(k).is_none(),
            forall|t: int| #[trigger] r.slab().shard(t).is_none(),
    {
        Pool { inner: Slab::new_with_config(config) }
    }

    /// Creates a value in the shard of thread `tid`: the free slot's
    /// former value, cleared (a slot never used gets a default value,
    /// cleared). Returns its handle, or `None`, changing nothing, where `tid`
    /// is no thread id of the pool or its shard is full.
    pub fn create(&mut self, tid: usize) -> (r: Option<RefMut>)
        requires
            old(self).wf(),
        ensures
            final(self).wf(),
            old(self).create_step(*final(self), tid, r),
    {
        if tid >= self.inner.shards.len() {
            return None;
        }
        self.inner.ensure_shard(tid);
        let ghost mid = self.inner;
        let c = self.inner.config;
        let mut sh = self.inner.shards[tid].take().unwrap();
        let ghost sh0 = sh;
        proof {
            assert(self.inner.shards@ == mid.shards@.update(tid as int, None));
        }
        match sh.take_cleared(&c) {
            None => {
                self.inner.shards.set(tid, Some(sh));
                proof {
                    assert(self.inner.shards@ =~= mid.shards@);
                    mid.lemma_shard_full(tid as int);
                    assert(self.inner.shard_full(tid as int));
                }
                None
            },
            Some((n, v)) => {
                let ghost sh1 = sh;
                let ghost gv = v;
                let (addr, gen) = sh.put_on_page(&c, n, v);
                proof {
                    assert forall|a: nat| a != addr as nat implies #[trigger] sh.same_at(&sh0, c, a) by {
                        assert(sh.same_at(&sh1, c, a));
                        assert(sh1.same_at(&sh0, c, a));
                    }
                    assert(sh1.gen(c, addr as nat) == sh0.gen(c, addr as nat));
                    mid.lemma_shard_full(tid as int);
                    assert(!old(self).inner.shard_full(tid as int));
                }
                let key = self.inner.finish_store(Ghost(old(self).inner), Ghost(mid), tid, sh, addr, gen, Ghost(gv));
                proof {
                    assert(gv.is_clear());
                    assert(old(self).slab().insert_step(self.slab(), tid, gv, Some(key)));
                    assert(self.slab().lookup(key) == Some(gv));
                }
                let r = RefMut { key };
                assert(r.spec_key() == key);
                Some(r)
            },
        }
    }

    /// Creates a value in the shard of thread `tid` as `create` does, and
    /// runs `init` on it before it becomes reachable. Returns its key, or
    /// `None`, changing nothing, where `tid` is no thread id of the pool or
    /// its shard is full.
    pub fn create_with<F: FnOnce(&mut T)>(&mut self, tid: usize, init: F) -> (r: Option<usize>)
        requires
            old(self).wf(),
            forall|x: &mut T| init.requires((x,)),
        ensures
            final(self).wf(),
            r.is_none() == (tid >= old(self).slab().cfg().spec_max_shards() || old(self).slab().shard_full(tid as int)),
            r.is_none() ==> forall|k: usize| #[trigger] final(self).slab().lookup(k) == old(self).slab().lookup(k),
            r.is_none() ==> forall|u: int, a: nat| #[trigger] final(self).slab().generation(u, a) == old(self).slab().generation(u, a),
            r matches Some(k) ==> old(self).slab().insert_step(final(self).slab(), tid, final(self).slab().lookup(k).unwrap(), Some(k)),
            r.is_some() ==> exists|x: &mut T| (*x).is_clear() && init.ensures((x,), ())
                && final(self).slab().lookup(r.unwrap()) == Some(*final(x)),
    {
        if tid >= self.inner.shards.len() {
            return None;
        }
        self.inner.ensure_shard(tid);
        let ghost mid = self.inner;
        let c = self.inner.config;
        let mut sh = self.inner.shards[tid].take().unwrap();
        let ghost sh0 = sh;
        proof {
            assert(self.inner.shards@ == mid.shards@.update(tid as int, None));
        }
        match sh.take_cleared(&c) {
            None => {
                self.inner.shards.set(tid, Some(sh));
                proof {
                    assert(self.inner.shards@ =~= mid.shards@);
                    mid.lemma_shard_full(tid as int);
                    assert(self.inner.shard_full(tid as int));
                }
                None
            },
            Some((n, v)) => {
                let mut v = v;
                init(&mut v);
                let ghost sh1 = sh;
                let ghost gv = v;
                let (addr, gen) = sh.put_on_page(&c, n, v);
                proof {
                    assert forall|a: nat| a != addr as nat implies #[trigger] sh.same_at(&sh0, c, a) by {
                        assert(sh.same_at(&sh1, c, a));
                        assert(sh1.same_at(&sh0, c, a));
                    }
                    assert(sh1.gen(c, addr as nat) == sh0.gen(c, addr as nat));
                    mid.lemma_shard_full(tid as int);
                    assert(!old(self).inner.shard_full(tid as int));
                }
                let key = self.inner.finish_store(Ghost(old(self).inner), Ghost(mid), tid, sh, addr, gen, Ghost(gv));
                proof {
                    assert(self.slab().lookup(key) == Some(gv));
                }
                Some(key)
            },
        }
    }

    /// Runs `f` on the value that `r` created, in place, where its key still
    /// reaches it, and returns whether it did. Nothing else changes.
    pub fn modify<F: FnOnce(&mut T)>(&mut self, r: &RefMut, f: F) -> (ok: bool)
        requires
            old(self).wf(),
            forall|x: &mut T| f.requires((x,)),
        ensures
            final(self).wf(),
            final(self).slab().cfg() == old(self).slab().cfg(),
            ok == old(self).slab().lookup(r.spec_key()).is_some(),
            ok ==> exists|x: &mut T| *x == old(self).slab().lookup(r.spec_key()).unwrap() && f.ensures((x,), ())
                && final(self).slab().lookup(r.spec_key()) == Some(*final(x)),
            forall|k: usize| !final(self).slab().same_entry(k, r.spec_key()) ==> #[trigger] final(self).slab().lookup(k)
                == old(self).slab().lookup(k),
            forall|k: usize| #[trigger] final(self).slab().refs(k) == old(self).slab().refs(k),
            forall|u: int, a: nat| #[trigger] final(self).slab().generation(u, a) == old(self).slab().generation(u, a),
    {
        let key = r.key;
        proof {
            self.inner.lemma_lookup_live(key);
        }
        match self.inner.locate(key) {
            None => false,
            Some((owner, addr, gen)) => {
                let ghost before = self.inner;
                let c = self.inner.config;
                let mut sh = self.inner.shards[owner].take().unwrap();
                let ok = sh.modify(&c, addr, gen, f);
                self.inner.shards.set(owner, Some(sh));
                proof {
                    let me = self.inner;
                    assert forall|t: int| 0 <= t < me.shards.len() implies ((#[trigger] me.shards@[t]) matches Some(s)
                        ==> s.wf(c) && s.tid == t) by {
                        if t != owner {
                            assert(me.shards@[t] == before.shards@[t]);
                        }
                    }
                    assert forall|k: usize| !me.same_entry(k, key) implies #[trigger] me.lookup(k) == before.lookup(k) by {
                        if !(me.key_tid(k) == owner && me.key_addr(k) == addr as nat) {
                            me.lemma_frame(&before, owner as int, addr as nat, k);
                        }
                    }
                    assert forall|k: usize| #[trigger] me.refs(k) == before.refs(k) by {
                        if !(me.key_tid(k) == owner && me.key_addr(k) == addr as nat) {
                            me.lemma_frame(&before, owner as int, addr as nat, k);
                        }
                    }
                    assert forall|u: int, a: nat| #[trigger] me.generation(u, a) == before.generation(u, a) by {
                        if !(u == owner && a == addr as nat) {
                            me.lemma_frame_gen(&before, owner as int, addr as nat, u, a);
                        }
                    }
                }
                ok
            },
        }
    }

    /// Takes a shared reference on the value that `key` reaches; see
    /// `Slab::get`.
    pub fn get(&mut self, key: usize) -> (r: Option<Ref>)
        requires
            old(self).wf(),
        ensures
            final(self).wf(),
            old(self).slab().get_step(final(self).slab(), key, ref_guard(r)),
    {
        match self.inner.get(key) {
            Some(g) => Some(Ref { key: g.key() }),
            None => None,
        }
    }

    /// Takes a shared reference on the value that `key` reaches, as `get`
    /// does, for a holder that keeps it apart from the pool's borrow.
    pub fn get_owned(&mut self, key: usize) -> (r: Option<OwnedRef>)
        requires
            old(self).wf(),
        ensures
            final(self).wf(),
            old(self).slab().get_step(final(self).slab(), key, owned_guard(r)),
    {
        match self.inner.get(key) {
            Some(g) => Some(OwnedRef { key: g.key() }),
            None => None,
        }
    }

    /// Returns the value that `r` refers to.
    pub fn value(&self, r: &Ref) -> (v: Option<&T>)
        requires
            self.wf(),
        ensures
            v == match self.slab().held(r.spec_key()) {
                Some(x) => Some(&x),
                None => None::<&T>,
            },
    {
        self.inner.value(&Guard { key: r.key })
    }

    /// Returns the value that `r` refers to.
    pub fn value_owned(&self, r: &OwnedRef) -> (v: Option<&T>)
        requires
            self.wf(),
        ensures
            v == match self.slab().held(r.spec_key()) {
                Some(x) => Some(&x),
                None => None::<&T>,
            },
    {
        self.inner.value(&Guard { key: r.key })
    }
}

impl<T: Clear + Default> Default for Pool<T> {
    /// Returns an empty pool with the default configuration.
    fn default() -> (r: Pool<T>)
        ensures
            r.wf(),
            forall|k: usize| r.slab().lookup(k).is_none(),
            forall|t: int| #[trigger] r.slab().shard(t).is_none(),
            r.slab().cfg().spec_max_threads() == crate::DefaultParams::spec_max_threads(),
            r.slab().cfg().spec_max_pages() == crate::DefaultParams::spec_max_pages(),
            r.slab().cfg().spec_initial_page_size() == crate::DefaultParams::spec_initial_page_size(),
            r.slab().cfg().spec_reserved_bits() == crate::DefaultParams::spec_reserved_bits(),
    {
        Pool::new()
    }
}

impl<T: Clear + Default> Pool<T> {
    /// Wraps up a removal on the shard of `owner`: where the shard handed
    /// back a value, clears it and puts it back into its vacant slot.
    fn clear_back(&mut self, owner: usize, sh: Shard<T>, addr: usize, removed: Option<T>, Ghost(before): Ghost<Slab<T>>)
        requires
            before.wf(),
            owner < before.shards.len(),
            before.shards@[owner as int] is Some,
            old(self).inner.config == before.config,
            old(self).inner.shards@ == before.shards@.update(owner as int, None),
            sh.wf(before.config),
            sh.tid == owner,
            addr <= before.config.max_addr(),
            removed.is_some() ==> in_range(before.config, addr as nat) && sh.state(before.config, addr as nat) == REMOVING
                && sh.page_at(before.config, addr as nat).is_allocated(),
        ensures
            final(self).wf(),
            final(self).inner.config == before.config,
            final(self).inner.shards@[owner as int] is Some,
            forall|u: int| 0 <= u < before.shards.len() && u != owner ==> final(self).inner.shards@[u] == before.shards@[u],
            final(self).inner.shards.len() == before.shards.len(),
            final(self).inner.shards@[owner as int].unwrap().same_except(&sh, before.config, addr as nat),
            in_range(before.config, addr as nat) ==> {
                let s1 = final(self).inner.shards@[owner as int].unwrap();
                &&& s1.state(before.config, addr as nat) == sh.state(before.config, addr as nat)
                &&& s1.gen(before.config, addr as nat) == sh.gen(before.config, addr as nat)
                &&& s1.refs(before.config, addr as nat) == sh.refs(before.config, addr as nat)
                &&& removed.is_none() ==> s1.value(before.config, addr as nat) == sh.value(before.config, addr as nat)
                &&& removed.is_some() ==> holds_cleared(s1.value(before.config, addr as nat))
            },
            forall|l: bool| #[trigger] final(self).inner.shards@[owner as int].unwrap().heads_list(before.config, addr as nat, l)
                == sh.heads_list(before.config, addr as nat, l),
    {
        let c = self.inner.config;
        let mut sh = sh;
        match removed {
            None => {
                assert(forall|a: nat| a != addr as nat ==> #[trigger] sh.same_at(&sh, c, a));
            },
            Some(v) => {
                let mut v = v;
                v.clear();
                sh.restore_item(&c, addr, v);
            },
        }
        self.inner.shards.set(owner, Some(sh));
        proof {
            assert forall|t: int| 0 <= t < self.inner.shards.len() implies ((#[trigger] self.inner.shards@[t]) matches Some(s)
                ==> s.wf(c) && s.tid == t) by {
                if t != owner {
                    assert(self.inner.shards@[t] == before.shards@[t]);
                }
            }
        }
    }

    /// Releases the guard with `key` on behalf of thread `tid`; where it was
    /// the last one on a value whose clearing was asked for, the value is
    /// cleared in place and its slot freed.
    fn release_key(&mut self, tid: usize, key: usize)
        requires
            old(self).wf(),
        ensures
            final(self).wf(),
            final(self).slab().cfg() == old(self).slab().cfg(),
            forall|k: usize| #[trigger] final(self).slab().lookup(k) == old(self).slab().lookup(k),
            final(self).slab().refs(key) == if old(self).slab().refs(key) == 0 { 0 } else {
                (old(self).slab().refs(key) - 1) as u64 },
            forall|k: usize| !final(self).slab().same_slot(k, key) ==> #[trigger] final(self).slab().refs(k) == old(self).slab().refs(k),
            forall|u: int, a: nat| #[trigger] final(self).slab().generation(u, a) == if u == final(self).slab().key_tid(key)
                && a == final(self).slab().key_addr(key) && old(self).slab().release_completes(key) {
                next_gen(final(self).slab().cfg(), old(self).slab().generation(u, a))
            } else {
                old(self).slab().generation(u, a)
            },
            forall|u: int, a: nat| #[trigger] final(self).slab().vacant(u, a) == (old(self).slab().vacant(u, a) || (
                old(self).slab().release_completes(key) && u == final(self).slab().key_tid(key)
                && a == final(self).slab().key_addr(key))),
            old(self).slab().release_completes(key) ==> holds_cleared(final(self).slab().stored(key)),
            old(self).slab().release_completes(key) ==> !final(self).slab().shard_full(final(self).slab().key_tid(key)),
            old(self).slab().release_completes(key) ==> final(self).slab().heads_free_list(key, tid == final(self).slab().key_tid(key)),
    {
        match self.inner.locate(key) {
            None => {},
            Some((owner, addr, _gen)) => {
                let ghost before = self.inner;
                let c = self.inner.config;
                let mut sh = self.inner.shards[owner].take().unwrap();
                let ghost sh0 = sh;
                proof {
                    assert(self.inner.shards@ == before.shards@.update(owner as int, None));
                }
                let removed = sh.release(&c, addr, owner == tid);
                let ghost sh1 = sh;
                self.clear_back(owner, sh, addr, removed, Ghost(before));
                proof {
                    let s2 = self.inner.shards@[owner as int].unwrap();
                    assert forall|a: nat| a != addr as nat implies #[trigger] s2.same_at(&sh0, c, a) by {
                        assert(s2.same_at(&sh1, c, a));
                        assert(sh1.same_at(&sh0, c, a));
                    }
                    let me = self.inner;
                    if before.release_completes(key) {
                        me.lemma_room(owner as int, addr as nat);
                    }
                    assert forall|u: int, a: nat| #[trigger] me.vacant(u, a) == (before.vacant(u, a) || (
                        before.release_completes(key) && u == me.key_tid(key) && a == me.key_addr(key))) by {
                        crate::shard::lemma_in_range_iff(c, a);
                        if !(u == owner && a == addr as nat) {
                            me.lemma_frame_gen(&before, owner as int, addr as nat, u, a);
                        }
                    }
                    assert forall|k: usize| #[trigger] me.lookup(k) == before.lookup(k) by {
                        if !(me.key_tid(k) == owner && me.key_addr(k) == addr as nat) {
                            me.lemma_frame(&before, owner as int, addr as nat, k);
                        }
                    }
                    assert forall|k: usize| !me.same_slot(k, key) implies #[trigger] me.refs(k) == before.refs(k) by {
                        me.lemma_frame(&before, owner as int, addr as nat, k);
                    }
                    assert forall|u: int, a: nat| #[trigger] me.generation(u, a) == if u == me.key_tid(key)
                        && a == me.key_addr(key) && before.release_completes(key) {
                        next_gen(c, before.generation(u, a))
                    } else {
                        before.generation(u, a)
                    } by {
                        if !(u == owner && a == addr as nat) {
                            me.lemma_frame_gen(&before, owner as int, addr as nat, u, a);
                        }
                    }
                }
            },
        }
    }

    /// Releases `r` on behalf of thread `tid`. Where it was the last
    /// reference to a value whose clearing was asked for, the value is
    /// cleared in place and its slot freed: onto the page's local list where
    /// `tid` owns the shard, else onto its transfer stack.
    pub fn release(&mut self, tid: usize, r: Ref)
        requires
            old(self).wf(),
        ensures
            final(self).wf(),
            final(self).slab().cfg() == old(self).slab().cfg(),
            forall|k: usize| #[trigger] final(self).slab().lookup(k) == old(self).slab().lookup(k),
            final(self).slab().refs(r.spec_key()) == if old(self).slab().refs(r.spec_key()) == 0 { 0 } else {
                (old(self).slab().refs(r.spec_key()) - 1) as u64 },
            old(self).slab().release_completes(r.spec_key()) ==> holds_cleared(final(self).slab().stored(r.spec_key())),
            old(self).slab().release_completes(r.spec_key()) ==> !final(self).slab().shard_full(final(self).slab().key_tid(r.spec_key())),
            old(self).slab().release_completes(r.spec_key()) ==> final(self).slab().heads_free_list(r.spec_key(),
                tid == final(self).slab().key_tid(r.spec_key())),
            forall|k: usize| !final(self).slab().same_slot(k, r.spec_key()) ==> #[trigger] final(self).slab().refs(k)
                == old(self).slab().refs(k),
            forall|u: int, a: nat| #[trigger] final(self).slab().generation(u, a) == if u == final(self).slab().key_tid(r.spec_key())
                && a == final(self).slab().key_addr(r.spec_key()) && old(self).slab().release_completes(r.spec_key()) {
                next_gen(final(self).slab().cfg(), old(self).slab().generation(u, a))
            } else {
                old(self).slab().generation(u, a)
            },
            forall|u: int, a: nat| #[trigger] final(self).slab().vacant(u, a) == (old(self).slab().vacant(u, a) || (
                old(self).slab().release_completes(r.spec_key()) && u == final(self).slab().key_tid(r.spec_key())
                && a == final(self).slab().key_addr(r.spec_key()))),
    {
        self.release_key(tid, r.key);
    }

    /// Releases `r` on behalf of thread `tid`, as `release` does.
    pub fn release_owned(&mut self, tid: usize, r: OwnedRef)
        requires
            old(self).wf(),
        ensures
            final(self).wf(),
            final(self).slab().cfg() == old(self).slab().cfg(),
            forall|k: usize| #[trigger] final(self).slab().lookup(k) == old(self).slab().lookup(k),
            final(self).slab().refs(r.spec_key()) == if old(self).slab().refs(r.spec_key()) == 0 { 0 } else {
                (old(self).slab().refs(r.spec_key()) - 1) as u64 },
            old(self).slab().release_completes(r.spec_key()) ==> holds_cleared(final(self).slab().stored(r.spec_key())),
            old(self).slab().release_completes(r.spec_key()) ==> !final(self).slab().shard_full(final(self).slab().key_tid(r.spec_key())),
            old(self).slab().release_completes(r.spec_key()) ==> final(self).slab().heads_free_list(r.spec_key(),
                tid == final(self).slab().key_tid(r.spec_key())),
            forall|k: usize| !final(self).slab().same_slot(k, r.spec_key()) ==> #[trigger] final(self).slab().refs(k)
                == old(self).slab().refs(k),
            forall|u: int, a: nat| #[trigger] final(self).slab().generation(u, a) == if u == final(self).slab().key_tid(r.spec_key())
                && a == final(self).slab().key_addr(r.spec_key()) && old(self).slab().release_completes(r.spec_key()) {
                next_gen(final(self).slab().cfg(), old(self).slab().generation(u, a))
            } else {
                old(self).slab().generation(u, a)
            },
            forall|u: int, a: nat| #[trigger] final(self).slab().vacant(u, a) == (old(self).slab().vacant(u, a) || (
                old(self).slab().release_completes(r.spec_key()) && u == final(self).slab().key_tid(r.spec_key())
                && a == final(self).slab().key_addr(r.spec_key()))),
    {
        self.release_key(tid, r.key);
    }

    /// Asks, on behalf of thread `tid`, for the value that `key` reaches to
    /// be cleared, and returns whether there was one. Where no reference is
    /// held, the value is cleared in place at once and its slot freed;
    /// otherwise the last reference released does it. Either way the key
    /// reaches nothing afterwards.
    pub fn clear(&mut self, tid: usize, key: usize) -> (r: bool)
        requires
            old(self).wf(),
        ensures
            final(self).wf(),
            old(self).clear_step(*final(self), key, r),
            r && old(self).slab().refs(key) == 0 ==> final(self).slab().heads_free_list(key, tid == final(self).slab().key_tid(key)),
    {
        proof {
            self.inner.lemma_lookup_live(key);
        }
        match self.inner.locate(key) {
            None => false,
            Some((owner, addr, gen)) => {
                let ghost before = self.inner;
                let c = self.inner.config;
                let mut sh = self.inner.shards[owner].take().unwrap();
                let ghost sh0 = sh;
                proof {
                    assert(self.inner.shards@ == before.shards@.update(owner as int, None));
                }
                let (marked, removed) = sh.remove(&c, addr, gen, owner == tid);
                let ghost sh1 = sh;
                self.clear_back(owner, sh, addr, removed, Ghost(before));
                proof {
                    let s2 = self.inner.shards@[owner as int].unwrap();
                    assert forall|a: nat| a != addr as nat implies #[trigger] s2.same_at(&sh0, c, a) by {
                        assert(s2.same_at(&sh1, c, a));
                        assert(sh1.same_at(&sh0, c, a));
                    }
                    let me = self.inner;
                    if marked && before.refs(key) == 0 {
                        me.lemma_room(owner as int, addr as nat);
                    }
                    assert forall|k: usize| !me.same_slot(k, key) implies #[trigger] me.held(k) == before.held(k) by {
                        me.lemma_frame(&before, owner as int, addr as nat, k);
                    }
                    assert forall|k: usize| !me.same_slot(k, key) implies #[trigger] me.stored(k) == before.stored(k) by {
                        me.lemma_frame(&before, owner as int, addr as nat, k);
                    }
                    if !(marked && before.refs(key) == 0) {
                        assert forall|k: usize| #[trigger] me.held(k) == before.held(k) by {
                            if !(me.key_tid(k) == owner && me.key_addr(k) == addr as nat) {
                                me.lemma_frame(&before, owner as int, addr as nat, k);
                            }
                        }
                        assert forall|k: usize| #[trigger] me.stored(k) == before.stored(k) by {
                            if !(me.key_tid(k) == owner && me.key_addr(k) == addr as nat) {
                                me.lemma_frame(&before, owner as int, addr as nat, k);
                            }
                        }
                    }
                    assert forall|u: int, a: nat| #[trigger] me.vacant(u, a) == (before.vacant(u, a) || (marked
                        && before.refs(key) == 0 && u == me.key_tid(key) && a == me.key_addr(key))) by {
                        crate::shard::lemma_in_range_iff(c, a);
                        if !(u == owner && a == addr as nat) {
                            me.lemma_frame_gen(&before, owner as int, addr as nat, u, a);
                        }
                    }
                    assert forall|k: usize| #[trigger] me.lookup(k) == if me.same_entry(k, key) {
                        None
                    } else {
                        before.lookup(k)
                    } by {
                        if !(me.key_tid(k) == owner && me.key_addr(k) == addr as nat) {
                            me.lemma_frame(&before, owner as int, addr as nat, k);
                        }
                    }
                    assert forall|k: usize| #[trigger] me.refs(k) == before.refs(k) by {
                        if !(me.key_tid(k) == owner && me.key_addr(k) == addr as nat) {
                            me.lemma_frame(&before, owner as int, addr as nat, k);
                        }
                    }
                    assert forall|u: int, a: nat| #[trigger] me.generation(u, a) == if marked && u == me.key_tid(key)
                        && a == me.key_addr(key) && before.refs(key) == 0 {
                        next_gen(c, before.generation(u, a))
                    } else {
                        before.generation(u, a)
                    } by {
                        if !(u == owner && a == addr as nat) {
                            me.lemma_frame_gen(&before, owner as int, addr as nat, u, a);
                        }
                    }
                    if marked && before.refs(key) == 0 {
                        assert(sh0.live(c, addr as nat, gen));
                        assert(sh0.page_at(c, addr as nat).wf(c));
                        crate::shard::lemma_off_in_page(c, addr as nat);
                        assert(sh0.page_at(c, addr as nat).slots@[crate::shard::off_of(c, addr as nat)].wf(c));
                    }
                }
                marked
            },
        }
    }
}

impl<T: Clear + Default> Pool<T> {
    /// Clear on reuse: after `clear(k)` has cleared a value, a `create()`
    /// that reuses the same slot observes a cleared value before any
    /// initializer runs, under a key other than `k`, which reaches nothing.
    pub proof fn lemma_clear_on_reuse(start: Pool<T>, mid: Pool<T>, end: Pool<T>, tid: usize, k: usize, created: RefMut)
        requires
            start.wf(),
            start.slab().refs(k) == 0,
            start.clear_step(mid, k, true),
            mid.create_step(end, tid, Some(created)),
            end.slab().same_slot(created.spec_key(), k),
        ensures
            holds_cleared(end.slab().lookup(created.spec_key())),
            end.slab().lookup(k).is_none(),
            !end.slab().same_entry(k, created.spec_key()),
    {
        assert(mid.slab().same_entry(k, k));
        let c = end.slab().cfg();
        let s0 = start.slab();
        let g = s0.key_gen(k);
        assert(g <= crate::bitpack::mask_of(c.gen_len)) by {
            crate::bitpack::lemma_unpack_bounded(k as u64, (c.addr_len + c.tid_len) as u64, c.gen_len);
        }
        let gl = c.gen_len;
        assert(crate::bitpack::mask_of(gl) >= 1) by {
            assert(u64::MAX >> ((64 - gl) as u64) >= 1) by (bit_vector)
                requires
                    1 <= gl <= 64,
            ;
        }
        assert(s0.generation(s0.key_tid(k), s0.key_addr(k)) == g);
        assert(mid.slab().generation(s0.key_tid(k), s0.key_addr(k)) == next_gen(c, g));
        assert(next_gen(c, g) != g);
    }
}

} // verus!
