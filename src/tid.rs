//! Thread ids: each thread that uses a slab gets a small dense id, which
//! selects its shard. Ids come from a counter; once the counter reaches the
//! limit, ids that exited threads gave back are handed out again.
use vstd::prelude::*;

verus! {

/// The id a thread gets where none can be had; every operation of a slab
/// fails for it.
pub const POISONED: usize = usize::MAX;

/// Hands out thread ids below a limit, reusing released ones.
pub struct Registry {
    /// Ids below `next` have been handed out at least once.
    next: usize,
    /// The largest number of ids.
    max: usize,
    /// Released ids, waiting to be handed out again.
    free: Vec<usize>,
}

impl Registry {
    /// The ids currently held by threads.
    pub closed spec fn held(&self) -> Set<usize> {
        Set::new(|id: usize| id < self.next && !self.free@.contains(id))
    }

    /// The largest number of ids.
    pub closed spec fn limit(&self) -> usize {
        self.max
    }

    pub closed spec fn wf(&self) -> bool {
        &&& self.next <= self.max
        &&& self.max < POISONED
        &&& self.free@.no_duplicates()
        &&& forall|i: int| 0 <= i < self.free@.len() ==> #[trigger] self.free@[i] < self.next
    }

    /// Returns a registry of ids below `max`, none of them held.
    pub fn new(max: usize) -> (r: Registry)
        requires
            max < POISONED,
        ensures
            r.wf(),
            r.limit() == max,
            r.held() == Set::<usize>::empty(),
    {
        let r = Registry { next: 0, max, free: Vec::new() };
        assert(r.held() =~= Set::<usize>::empty());
        r
    }

    /// Hands out an id that no thread holds: a fresh one while any is left
    /// below the limit, else a released one. `None` where every id is held.
    pub fn register(&mut self) -> (r: Option<usize>)
        requires
            old(self).wf(),
        ensures
            final(self).wf(),
            final(self).limit() == old(self).limit(),
            r matches Some(id) ==> id < old(self).limit() && !old(self).held().contains(id)
                && final(self).held() == old(self).held().insert(id),
            r.is_none() ==> final(self).held() == old(self).held(),
            r.is_none() == (forall|id: usize| id < old(self).limit() ==> old(self).held().contains(id)),
    {
        if self.next < self.max {
            let id = self.next;
            self.next = self.next + 1;
            proof {
                assert(!old(self).free@.contains(id)) by {
                    if old(self).free@.contains(id) {
                        let i = choose|i: int| 0 <= i < old(self).free@.len() && old(self).free@[i] == id;
                        assert(old(self).free@[i] < old(self).next);
                    }
                }
                assert(self.held() =~= old(self).held().insert(id));
                assert(!(forall|x: usize| x < old(self).limit() ==> old(self).held().contains(x))) by {
                    assert(!old(self).held().contains(id));
                }
            }
            return Some(id);
        }
        match self.free.pop() {
            Some(id) => {
                proof {
                    let f = old(self).free@;
                    assert(f.last() == id);
                    assert(f.contains(id));
                    assert(self.free@ == f.drop_last());
                    assert forall|x: usize| #[trigger] self.free@.contains(x) == (f.contains(x) && x != id) by {
                        if self.free@.contains(x) {
                            let i = choose|i: int| 0 <= i < self.free@.len() && self.free@[i] == x;
                            assert(f[i] == x);
                            assert(i != f.len() - 1);
                        }
                        if f.contains(x) && x != id {
                            let i = choose|i: int| 0 <= i < f.len() && f[i] == x;
                            assert(i != f.len() - 1);
                            assert(self.free@[i] == x);
                        }
                    }
                    assert(self.held() =~= old(self).held().insert(id));
                    assert(!(forall|x: usize| x < old(self).limit() ==> old(self).held().contains(x))) by {
                        assert(!old(self).held().contains(id));
                    }
                }
                Some(id)
            },
            None => {
                proof {
                    assert forall|x: usize| x < old(self).limit() implies old(self).held().contains(x) by {
                        assert(!old(self).free@.contains(x));
                    }
                }
                None
            },
        }
    }

    /// Gives back `id`, held by a thread that exits, for reuse. An id that
    /// no thread holds is ignored.
    pub fn release(&mut self, id: usize)
        requires
            old(self).wf(),
        ensures
            final(self).wf(),
            final(self).limit() == old(self).limit(),
            final(self).held() == old(self).held().remove(id),
    {
        if id >= self.next {
            proof {
                assert(self.held() =~= old(self).held().remove(id));
            }
            return;
        }
        let mut i: usize = 0;
        while i < self.free.len()
            invariant
                self.wf(),
                *self == *old(self),
                i <= self.free.len(),
                forall|j: int| 0 <= j < i ==> self.free@[j] != id,
            decreases self.free.len() - i,
        {
            if self.free[i] == id {
                proof {
                    assert(self.held() =~= old(self).held().remove(id));
                }
                return;
            }
            i = i + 1;
        }
        self.free.push(id);
        proof {
            assert(!old(self).free@.contains(id));
            assert forall|x: usize| #[trigger] self.free@.contains(x) == (old(self).free@.contains(x) || x == id) by {
                if self.free@.contains(x) {
                    let j = choose|j: int| 0 <= j < self.free@.len() && self.free@[j] == x;
                    if j < old(self).free@.len() {
                        assert(old(self).free@[j] == x);
                    }
                }
                if old(self).free@.contains(x) {
                    let j = choose|j: int| 0 <= j < old(self).free@.len() && old(self).free@[j] == x;
                    assert(self.free@[j] == x);
                }
                if x == id {
                    assert(self.free@[self.free@.len() - 1] == id);
                }
            }
            assert(self.held() =~= old(self).held().remove(id));
        }
    }
}

} // verus!
