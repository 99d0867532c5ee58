//! Configuration of a slab: the size of its first page, the number of pages
//! in a shard, the number of threads, and the bits of a key reserved for the
//! caller. From these follow the bit layout of keys and slot lifecycles.
use vstd::prelude::*;
use vstd::arithmetic::power2::{pow2, lemma_pow2_pos, lemma_pow2_unfold, lemma_pow2_adds, lemma_pow2_strictly_increases};
use crate::bitpack::{self, mask_of, unpack_spec, pack_spec};

verus! {

/// The parameters that a slab is configured with.
pub trait Params {
    /// The value `max_threads` returns.
    spec fn spec_max_threads() -> usize;

    /// The value `max_pages` returns.
    spec fn spec_max_pages() -> usize;

    /// The value `initial_page_size` returns.
    spec fn spec_initial_page_size() -> usize;

    /// The value `reserved_bits` returns.
    spec fn spec_reserved_bits() -> usize;

    /// The largest number of threads that may use a slab at once.
    fn max_threads() -> (r: usize)
        ensures
            r == Self::spec_max_threads();

    /// The number of pages in each shard.
    fn max_pages() -> (r: usize)
        ensures
            r == Self::spec_max_pages();

    /// The number of slots on a shard's first page (rounded up to a power of two).
    fn initial_page_size() -> (r: usize)
        ensures
            r == Self::spec_initial_page_size();

    /// The number of high bits of a key that the slab leaves to its caller.
    fn reserved_bits() -> (r: usize)
        ensures
            r == Self::spec_reserved_bits();
}

/// The default parameters: 32 slots on the first page, no reserved bits,
/// and on 64-bit targets 4096 threads and 32 pages. On 32-bit targets, 2048
/// threads and 13 pages: the most that leave a generation bit in the key.
#[derive(Clone, Copy)]
pub struct DefaultParams {
    _p: (),
}

impl Params for DefaultParams {
    open spec fn spec_max_threads() -> usize {
        if usize::BITS == 64 { 4096 } else { 2048 }
    }

    open spec fn spec_max_pages() -> usize {
        if usize::BITS == 64 { 32 } else { 13 }
    }

    open spec fn spec_initial_page_size() -> usize {
        32
    }

    open spec fn spec_reserved_bits() -> usize {
        0
    }

    fn max_threads() -> (r: usize) {
        if usize::BITS == 64 {
            4096
        } else {
            2048
        }
    }

    fn max_pages() -> (r: usize) {
        if usize::BITS == 64 {
            32
        } else {
            13
        }
    }

    fn initial_page_size() -> (r: usize) {
        32
    }

    fn reserved_bits() -> (r: usize) {
        0
    }
}

/// A validated configuration together with the layout derived from it.
#[derive(Clone, Copy)]
pub struct Config {
    pub(crate) max_threads: usize,
    pub(crate) max_pages: usize,
    pub(crate) initial_page_size: usize,
    pub(crate) reserved_bits: usize,
    /// The initial page size rounded up to a power of two.
    pub(crate) initial_sz: usize,
    /// The number of threads rounded up to a power of two.
    pub(crate) max_shards: usize,
    /// `log2(initial_sz) + 1`: shifting `address + initial_sz` down by this
    /// leaves a number whose bit length is the page index.
    pub(crate) index_shift: u64,
    pub(crate) addr_len: u64,
    pub(crate) tid_len: u64,
    pub(crate) gen_len: u64,
    pub(crate) refs_len: u64,
    pub(crate) width: u64,
}

/// The number of binary digits of `x`.
pub open spec fn bit_len(x: nat) -> nat
    decreases x,
{
    if x == 0 {
        0
    } else {
        1 + bit_len(x / 2)
    }
}

impl Config {
    /// The largest number of threads, as configured.
    pub open(crate) spec fn spec_max_threads(&self) -> usize {
        self.max_threads
    }

    /// The number of pages per shard, as configured.
    pub open(crate) spec fn spec_max_pages(&self) -> usize {
        self.max_pages
    }

    /// The size of the first page, as configured.
    pub open(crate) spec fn spec_initial_page_size(&self) -> usize {
        self.initial_page_size
    }

    /// The reserved high bits of a key, as configured.
    pub open(crate) spec fn spec_reserved_bits(&self) -> usize {
        self.reserved_bits
    }

    pub open(crate) spec fn wf(&self) -> bool {
        &&& self.width == usize::BITS
        &&& self.width <= 64
        &&& 1 <= self.index_shift
        &&& self.initial_sz as nat == pow2((self.index_shift - 1) as nat)
        &&& (self.index_shift - 1) as nat == log2_ceil(self.initial_page_size as nat)
        &&& 1 <= self.initial_page_size <= self.initial_sz
        &&& 1 <= self.tid_len
        &&& self.max_shards as nat == pow2((self.tid_len - 1) as nat)
        &&& (self.tid_len - 1) as nat == log2_ceil(self.max_threads as nat)
        &&& 1 <= self.max_threads <= self.max_shards
        &&& 1 <= self.max_pages
        &&& self.addr_len == self.max_pages + self.index_shift
        &&& 1 <= self.gen_len
        &&& self.addr_len + self.tid_len + self.gen_len + self.reserved_bits == self.width
        &&& self.refs_len + 2 + self.gen_len == self.width
    }

    /// The number of slots on page `n` of a shard.
    pub open(crate) spec fn page_size(&self, n: nat) -> nat {
        (self.initial_sz * pow2(n)) as nat
    }

    /// The number of slots on the pages before page `n`: the address of the
    /// first slot of page `n`.
    pub open(crate) spec fn prev_size(&self, n: nat) -> nat {
        (self.initial_sz * (pow2(n) - 1)) as nat
    }

    /// The page that holds address `addr`, as the shift and bit-length
    /// computation gives it.
    pub open(crate) spec fn page_index_of(&self, addr: nat) -> nat {
        bit_len(((addr + self.initial_sz) as nat / pow2(self.index_shift as nat)) as nat)
    }

    /// The largest address a key can carry.
    pub open(crate) spec fn max_addr(&self) -> nat {
        mask_of(self.addr_len) as nat
    }

    /// Facts about the layout that most proofs need.
    pub(crate) proof fn lemma_layout(&self)
        requires
            self.wf(),
        ensures
            self.addr_len + 2 <= self.width,
            self.index_shift <= self.addr_len,
            self.initial_sz as nat * 2 == pow2(self.index_shift as nat),
            pow2(self.addr_len as nat) <= pow2((self.width - 2) as nat),
            self.prev_size(self.max_pages as nat) + self.initial_sz == pow2((self.addr_len - 1) as nat),
            pow2((self.width - 1) as nat) <= usize::MAX,
            pow2(self.addr_len as nat) <= usize::MAX,
            pow2(self.tid_len as nat) <= usize::MAX,
            mask_of(self.addr_len) as nat == pow2(self.addr_len as nat) - 1,
            self.initial_sz < pow2(self.addr_len as nat),
            self.max_shards <= mask_of(self.tid_len),
            1 <= self.initial_sz,
    {
        let s = (self.index_shift - 1) as nat;
        lemma_pow2_unfold(self.index_shift as nat);
        lemma_pow2_adds(s, self.max_pages as nat);
        assert(s + self.max_pages == (self.addr_len - 1) as nat);
        if self.addr_len < self.width - 2 {
            lemma_pow2_strictly_increases(self.addr_len as nat, (self.width - 2) as nat);
        }
        vstd::layout::unsigned_int_max_values();
        lemma_pow2_strictly_increases((self.width - 1) as nat, self.width as nat);
        lemma_pow2_strictly_increases((self.width - 2) as nat, (self.width - 1) as nat);
        lemma_pow2_strictly_increases(self.tid_len as nat, self.width as nat);
        crate::bitpack::lemma_mask_is_pow2_minus_one(self.addr_len);
        crate::bitpack::lemma_mask_is_pow2_minus_one(self.tid_len);
        lemma_pow2_unfold(self.tid_len as nat);
        lemma_pow2_pos((self.tid_len - 1) as nat);
        lemma_pow2_pos(s);
        lemma_pow2_pos(self.max_pages as nat);
        lemma_pow2_strictly_increases(s, self.addr_len as nat);
        assert(self.prev_size(self.max_pages as nat) == self.initial_sz * pow2(self.max_pages as nat) - self.initial_sz) by (nonlinear_arith)
            requires
                self.prev_size(self.max_pages as nat) == (self.initial_sz * (pow2(self.max_pages as nat) - 1)) as nat,
                pow2(self.max_pages as nat) >= 1,
        {
            lemma_pow2_pos(self.max_pages as nat);
        }
        lemma_pow2_pos(self.max_pages as nat);
    }

    /// Every address lies on the page that the index computation names:
    /// at or after its first slot, and before the next page's.
    pub(crate) proof fn lemma_page_bounds(&self, addr: nat)
        requires
            self.wf(),
        ensures
            self.prev_size(self.page_index_of(addr)) <= addr < self.prev_size(self.page_index_of(addr) + 1),
    {
        self.lemma_layout();
        let init = self.initial_sz as int;
        let d = pow2(self.index_shift as nat) as int;
        let q = (addr + init) / d;
        let n = self.page_index_of(addr);
        vstd::arithmetic::div_mod::lemma_fundamental_div_mod(addr + init, d);
        lemma_bit_len_bounds(q as nat);
        lemma_pow2_unfold(n + 1);
        if n == 0 {
            assert(q == 0);
            assert(pow2(1) == 2) by {
                vstd::arithmetic::power2::lemma2_to64();
            }
            vstd::arithmetic::power2::lemma2_to64();
            assert(self.prev_size(0) == 0) by (nonlinear_arith)
                requires
                    self.prev_size(0) == (init * (pow2(0) - 1)) as nat,
                    pow2(0) == 1,
            ;
            assert(self.prev_size(1) == init) by (nonlinear_arith)
                requires
                    self.prev_size(1) == (init * (pow2(1) - 1)) as nat,
                    pow2(1) == 2,
                    init >= 1,
            ;
            assert(addr + init < d);
        } else {
            lemma_pow2_unfold(n);
            let lo = pow2((n - 1) as nat) as int;
            let hi = pow2(n) as int;
            assert(lo <= q < hi);
            assert(addr + init == d * q + (addr + init) % d);
            assert(0 <= (addr + init) % d < d);
            assert(d * lo <= d * q) by (nonlinear_arith)
                requires
                    lo <= q,
                    0 <= d,
            ;
            assert(d * q <= d * (hi - 1)) by (nonlinear_arith)
                requires
                    q <= hi - 1,
                    0 <= d,
            ;
            assert(d * lo == init * hi) by (nonlinear_arith)
                requires
                    d == init * 2,
                    hi == 2 * lo,
            ;
            assert(init * (2 * hi) == d * hi) by (nonlinear_arith)
                requires
                    d == init * 2,
            ;
            assert(d * (hi - 1) == d * hi - d) by (nonlinear_arith);
            assert(self.prev_size(n) == init * hi - init) by (nonlinear_arith)
                requires
                    self.prev_size(n) == (init * (hi - 1)) as nat,
                    hi >= 1,
                    init >= 1,
            ;
            assert(self.prev_size(n + 1) == init * (2 * hi) - init) by (nonlinear_arith)
                requires
                    self.prev_size(n + 1) == (init * (pow2(n + 1) - 1)) as nat,
                    pow2(n + 1) == 2 * hi,
                    hi >= 1,
                    init >= 1,
            ;
        }
    }

    /// The pages follow each other: page `n + 1` starts where page `n` ends.
    pub(crate) proof fn lemma_prev_size_step(&self, n: nat)
        requires
            self.wf(),
        ensures
            self.prev_size(n + 1) == self.prev_size(n) + self.page_size(n),
            self.page_size(n + 1) == 2 * self.page_size(n),
            self.page_size(n) >= 1,
    {
        self.lemma_layout();
        lemma_pow2_unfold(n + 1);
        lemma_pow2_pos(n);
        let init = self.initial_sz as int;
        let p = pow2(n) as int;
        assert(init * (2 * p - 1) == init * (p - 1) + init * p) by (nonlinear_arith);
        assert(init * (2 * p) == 2 * (init * p)) by (nonlinear_arith);
        assert(init * p >= 1) by (nonlinear_arith)
            requires
                init >= 1,
                p >= 1,
        ;
        assert(init * (p - 1) >= 0) by (nonlinear_arith)
            requires
                init >= 1,
                p >= 1,
        ;
    }

    /// The first slot of page `n` lies before the first slot of any later page.
    pub(crate) proof fn lemma_prev_size_monotonic(&self, a: nat, b: nat)
        requires
            self.wf(),
            a <= b,
        ensures
            self.prev_size(a) <= self.prev_size(b),
            a < b ==> self.prev_size(a) < self.prev_size(b),
    {
        self.lemma_layout();
        lemma_pow2_pos(a);
        if a < b {
            lemma_pow2_strictly_increases(a, b);
            let init = self.initial_sz as int;
            assert(init * (pow2(a) - 1) < init * (pow2(b) - 1)) by (nonlinear_arith)
                requires
                    init >= 1,
                    pow2(a) < pow2(b),
            ;
        }
    }

    /// An address between the first slots of page `n` and page `n + 1` is on
    /// page `n`.
    pub(crate) proof fn lemma_page_index_unique(&self, addr: nat, n: nat)
        requires
            self.wf(),
            self.prev_size(n) <= addr < self.prev_size(n + 1),
        ensures
            self.page_index_of(addr) == n,
    {
        let m = self.page_index_of(addr);
        self.lemma_page_bounds(addr);
        if m < n {
            self.lemma_prev_size_monotonic(m + 1, n);
        } else if m > n {
            self.lemma_prev_size_monotonic(n + 1, m);
        }
    }

    /// Returns the index of the page that holds address `addr`.
    pub(crate) fn page_index(&self, addr: usize) -> (r: usize)
        requires
            self.wf(),
            addr <= self.max_addr(),
        ensures
            r == self.page_index_of(addr as nat),
    {
        proof {
            self.lemma_layout();
            vstd::arithmetic::power2::lemma2_to64_rest();
            lemma_pow2_strictly_increases((self.width - 2) as nat, 64);
            assert(addr + self.initial_sz < pow2(64));
        }
        let sum = addr as u64 + self.initial_sz as u64;
        proof {
            vstd::bits::lemma_u64_shr_is_div(sum, self.index_shift);
        }
        let shifted = sum >> self.index_shift;
        proof {
            lemma_leading_zeros_bit_len(shifted);
        }
        (64 - shifted.leading_zeros()) as usize
    }

    /// The number of shards: the number of threads rounded up to a power
    /// of two.
    pub open(crate) spec fn spec_max_shards(&self) -> usize {
        self.max_shards
    }

    /// The width of the address field of a key.
    pub open(crate) spec fn addr_bits(&self) -> u64 {
        self.addr_len
    }

    /// The width of the thread-id field of a key.
    pub open(crate) spec fn tid_bits(&self) -> u64 {
        self.tid_len
    }

    /// The width of the generation field of a key (and of a slot lifecycle).
    pub open(crate) spec fn gen_bits(&self) -> u64 {
        self.gen_len
    }

    /// The address field of a key.
    pub open(crate) spec fn key_addr(&self, key: u64) -> u64 {
        unpack_spec(key, 0, self.addr_len)
    }

    /// The thread-id field of a key.
    pub open(crate) spec fn key_tid(&self, key: u64) -> u64 {
        unpack_spec(key, self.addr_len, self.tid_len)
    }

    /// The generation field of a key.
    pub open(crate) spec fn key_gen(&self, key: u64) -> u64 {
        unpack_spec(key, (self.addr_len + self.tid_len) as u64, self.gen_len)
    }

    /// The key that `pack_key` writes into `carrier`: the address, then the
    /// thread id, then the generation.
    pub open(crate) spec fn key_spec(&self, addr: u64, tid: u64, gen: u64, carrier: u64) -> u64 {
        pack_spec(
            gen,
            pack_spec(tid, pack_spec(addr, carrier, 0, self.addr_len), self.addr_len, self.tid_len),
            (self.addr_len + self.tid_len) as u64,
            self.gen_len,
        )
    }

    /// The bits of a key that hold the address, thread id and generation.
    pub open(crate) spec fn used_mask(&self) -> u64 {
        crate::bitpack::field_mask(0, self.addr_len) | crate::bitpack::field_mask(self.addr_len, self.tid_len)
            | crate::bitpack::field_mask((self.addr_len + self.tid_len) as u64, self.gen_len)
    }

    /// Key round trip: packing an address, a thread id and a generation,
    /// each within its field, into any carrier word and unpacking yields
    /// them again, and every bit of the carrier outside the three fields
    /// is kept.
    pub proof fn lemma_key_round_trip(&self, addr: u64, tid: u64, gen: u64, carrier: u64)
        requires
            self.wf(),
            addr <= mask_of(self.addr_bits()),
            tid <= mask_of(self.tid_bits()),
            gen <= mask_of(self.gen_bits()),
        ensures
            self.key_addr(self.key_spec(addr, tid, gen, carrier)) == addr,
            self.key_tid(self.key_spec(addr, tid, gen, carrier)) == tid,
            self.key_gen(self.key_spec(addr, tid, gen, carrier)) == gen,
            self.key_spec(addr, tid, gen, carrier) & !self.used_mask() == carrier & !self.used_mask(),
    {
        let al = self.addr_len;
        let tl = self.tid_len;
        let gl = self.gen_len;
        let gs = (al + tl) as u64;
        let w1 = pack_spec(addr, carrier, 0, al);
        let w2 = pack_spec(tid, w1, al, tl);
        let w3 = pack_spec(gen, w2, gs, gl);
        crate::bitpack::lemma_pack_unpack(addr, carrier, 0, al);
        crate::bitpack::lemma_pack_unpack(tid, w1, al, tl);
        crate::bitpack::lemma_pack_unpack(gen, w2, gs, gl);
        crate::bitpack::lemma_pack_other(tid, w1, al, tl, 0, al);
        crate::bitpack::lemma_pack_other(gen, w2, gs, gl, 0, al);
        crate::bitpack::lemma_pack_other(gen, w2, gs, gl, al, tl);
        let m1 = crate::bitpack::field_mask(0, al);
        let m2 = crate::bitpack::field_mask(al, tl);
        let m3 = crate::bitpack::field_mask(gs, gl);
        crate::bitpack::lemma_agree_outside_union(w1, carrier, m1, m2);
        crate::bitpack::lemma_agree_outside_union(w1, carrier, m1 | m2, m3);
        crate::bitpack::lemma_agree_outside_union(w2, w1, m2, m1);
        assert(m2 | m1 == m1 | m2) by (bit_vector);
        crate::bitpack::lemma_agree_outside_union(w2, w1, m1 | m2, m3);
        crate::bitpack::lemma_agree_outside_union(w3, w2, m3, m1 | m2);
        assert(m3 | (m1 | m2) == (m1 | m2) | m3) by (bit_vector);
    }

    /// Returns the address field of `key`.
    pub(crate) fn unpack_addr(&self, key: usize) -> (r: usize)
        requires
            self.wf(),
        ensures
            r as u64 == self.key_addr(key as u64),
            r <= self.max_addr(),
    {
        proof {
            self.lemma_layout();
        }
        bitpack::unpack(key as u64, 0, self.addr_len) as usize
    }

    /// Returns the thread-id field of `key`.
    pub(crate) fn unpack_tid(&self, key: usize) -> (r: usize)
        requires
            self.wf(),
        ensures
            r as u64 == self.key_tid(key as u64),
            r <= mask_of(self.tid_len),
    {
        proof {
            self.lemma_layout();
            crate::bitpack::lemma_mask_is_pow2_minus_one(self.tid_len);
            lemma_pow2_strictly_increases(self.tid_len as nat, self.width as nat);
        }
        bitpack::unpack(key as u64, self.addr_len, self.tid_len) as usize
    }

    /// Returns the generation field of `key`.
    pub(crate) fn unpack_gen(&self, key: usize) -> (r: u64)
        requires
            self.wf(),
        ensures
            r == self.key_gen(key as u64),
            r <= mask_of(self.gen_len),
    {
        bitpack::unpack(key as u64, self.addr_len + self.tid_len, self.gen_len)
    }

    /// Returns the key of the slot at `addr` on shard `tid` in generation
    /// `gen`, with the reserved bits clear.
    pub(crate) fn pack_key(&self, addr: usize, tid: usize, gen: u64) -> (r: usize)
        requires
            self.wf(),
            addr <= self.max_addr(),
            tid <= mask_of(self.tid_len),
            gen <= mask_of(self.gen_len),
        ensures
            r as u64 == self.key_spec(addr as u64, tid as u64, gen, 0),
            self.key_addr(r as u64) == addr as u64,
            self.key_tid(r as u64) == tid as u64,
            self.key_gen(r as u64) == gen,
            r as u64 & !self.used_mask() == 0,
    {
        proof {
            self.lemma_layout();
            self.lemma_key_round_trip(addr as u64, tid as u64, gen, 0);
            let al = self.addr_len;
            let tl = self.tid_len;
            let top = (al + tl + self.gen_len) as u64;
            assert(0u64 <= u64::MAX >> ((64 - 0u64) as u64)) by (bit_vector);
            crate::bitpack::lemma_pack_below(addr as u64, 0, 0, al, al);
            crate::bitpack::lemma_mask_monotonic(al, (al + tl) as u64);
            crate::bitpack::lemma_mask_monotonic((al + tl) as u64, top);
            crate::bitpack::lemma_pack_below(tid as u64, pack_spec(addr as u64, 0, 0, al), al, tl, (al + tl) as u64);
            crate::bitpack::lemma_pack_below(gen, pack_spec(tid as u64, pack_spec(addr as u64, 0, 0, al), al, tl), (al + tl) as u64, self.gen_len, top);
            crate::bitpack::lemma_mask_is_pow2_minus_one(top);
            if top < self.width {
                lemma_pow2_strictly_increases(top as nat, self.width as nat);
            }
            vstd::layout::unsigned_int_max_values();
            let um = self.used_mask();
            assert(0u64 & !um == 0) by (bit_vector);
        }
        let w = bitpack::pack(addr as u64, 0, 0, self.addr_len);
        let w = bitpack::pack(tid as u64, w, self.addr_len, self.tid_len);
        let w = bitpack::pack(gen, w, self.addr_len + self.tid_len, self.gen_len);
        w as usize
    }

    /// Returns the configuration for the given parameters, or `None` where
    /// they cannot be laid out in a key.
    pub fn new(max_threads: usize, max_pages: usize, initial_page_size: usize, reserved_bits: usize) -> (r: Option<Config>)
        ensures
            r.is_some() == params_valid(max_threads as nat, max_pages as nat, initial_page_size as nat, reserved_bits as nat),
            r matches Some(c) ==> {
                &&& c.wf()
                &&& c.spec_max_threads() == max_threads
                &&& c.spec_max_pages() == max_pages
                &&& c.spec_initial_page_size() == initial_page_size
                &&& c.spec_reserved_bits() == reserved_bits
            },
    {
        proof {
            vstd::arithmetic::power2::lemma2_to64();
            vstd::arithmetic::power2::lemma2_to64_rest();
        }
        let width = usize::BITS as u64;
        if width > 64 || max_threads == 0 || initial_page_size == 0 || max_pages == 0 {
            return None;
        }
        if max_threads as u64 > (1u64 << 62u64) || initial_page_size as u64 > (1u64 << 62u64) {
            proof {
                assert(1u64 << 62u64 == 0x4000_0000_0000_0000u64) by (bit_vector);
            }
            return None;
        }
        proof {
            assert(1u64 << 62u64 == 0x4000_0000_0000_0000u64) by (bit_vector);
        }
        if max_pages as u64 >= width || reserved_bits as u64 >= width {
            return None;
        }
        let (isz, ie) = next_pow2(initial_page_size);
        let (shards, te) = next_pow2(max_threads);
        let index_shift = ie + 1;
        let tid_len = te + 1;
        let used = max_pages as u64 + index_shift + tid_len + reserved_bits as u64;
        if used >= width {
            return None;
        }
        let gen_len = width - used;
        let addr_len = max_pages as u64 + index_shift;
        proof {
            vstd::layout::unsigned_int_max_values();
            lemma_pow2_strictly_increases(ie as nat, usize::BITS as nat);
            lemma_pow2_strictly_increases(te as nat, usize::BITS as nat);
        }
        Some(Config {
            max_threads,
            max_pages,
            initial_page_size,
            reserved_bits,
            initial_sz: isz as usize,
            max_shards: shards as usize,
            index_shift,
            addr_len,
            tid_len,
            gen_len,
            refs_len: width - 2 - gen_len,
            width,
        })
    }

    /// Returns the configuration given by the parameters of `P`, or `None`
    /// where they cannot be laid out in a key.
    pub fn from_params<P: Params>() -> (r: Option<Config>)
        ensures
            r.is_some() == params_valid(P::spec_max_threads() as nat, P::spec_max_pages() as nat,
                P::spec_initial_page_size() as nat, P::spec_reserved_bits() as nat),
            r matches Some(c) ==> {
                &&& c.wf()
                &&& c.spec_max_threads() == P::spec_max_threads()
                &&& c.spec_max_pages() == P::spec_max_pages()
                &&& c.spec_initial_page_size() == P::spec_initial_page_size()
                &&& c.spec_reserved_bits() == P::spec_reserved_bits()
            },
    {
        Config::new(P::max_threads(), P::max_pages(), P::initial_page_size(), P::reserved_bits())
    }

    /// Returns the configuration of `DefaultParams`.
    pub fn default_config() -> (r: Config)
        ensures
            r.wf(),
            r.spec_max_threads() == DefaultParams::spec_max_threads(),
            r.spec_max_pages() == DefaultParams::spec_max_pages(),
            r.spec_initial_page_size() == DefaultParams::spec_initial_page_size(),
            r.spec_reserved_bits() == DefaultParams::spec_reserved_bits(),
    {
        proof {
            vstd::arithmetic::power2::lemma2_to64();
            vstd::arithmetic::power2::lemma2_to64_rest();
            lemma_log2_ceil(32, 5);
            lemma_log2_ceil(4096, 12);
            lemma_log2_ceil(2048, 11);
        }
        Config::from_params::<DefaultParams>().unwrap()
    }
}


/// The bit length of a nonzero number lies between two powers of two.
pub proof fn lemma_bit_len_bounds(x: nat)
    ensures
        bit_len(x) == 0 <==> x == 0,
        bit_len(x) >= 1 ==> pow2((bit_len(x) - 1) as nat) <= x < pow2(bit_len(x)),
    decreases x,
{
    if x != 0 {
        lemma_bit_len_bounds(x / 2);
        let b = bit_len(x);
        lemma_pow2_unfold(b);
        if x / 2 == 0 {
            vstd::arithmetic::power2::lemma2_to64();
        } else {
            lemma_pow2_unfold((b - 1) as nat);
        }
    }
}

/// `64 - leading_zeros(x)` is the bit length of `x`.
proof fn lemma_leading_zeros_bit_len(x: u64)
    ensures
        64 - vstd::std_specs::bits::u64_leading_zeros(x) == bit_len(x as nat),
    decreases x,
{
    reveal(vstd::std_specs::bits::u64_leading_zeros);
    if x != 0 {
        lemma_leading_zeros_bit_len(x / 2);
    }
}

/// The exponent of the smallest power of two that is at least `n`.
pub open spec fn log2_ceil(n: nat) -> nat
    decreases n,
{
    if n <= 1 {
        0
    } else {
        1 + log2_ceil(((n + 1) / 2) as nat)
    }
}

/// The parameters can be laid out in a key: each count is positive and at
/// most `2^62`, and the address, thread and generation fields with the
/// reserved bits fit in a word, with at least one generation bit.
pub open spec fn params_valid(max_threads: nat, max_pages: nat, initial_page_size: nat, reserved_bits: nat) -> bool {
    &&& usize::BITS <= 64
    &&& 1 <= max_threads <= pow2(62)
    &&& 1 <= initial_page_size <= pow2(62)
    &&& 1 <= max_pages
    &&& max_pages + log2_ceil(initial_page_size) + 1 + log2_ceil(max_threads) + 1 + reserved_bits < usize::BITS
}

/// Where `2^e` is the least power of two not below `n`, `e` is `log2_ceil(n)`.
proof fn lemma_log2_ceil(n: nat, e: nat)
    requires
        n <= pow2(e),
        e == 0 || pow2((e - 1) as nat) < n,
    ensures
        log2_ceil(n) == e,
    decreases e,
{
    if e == 0 {
        vstd::arithmetic::power2::lemma2_to64();
    } else {
        lemma_pow2_unfold(e);
        lemma_pow2_pos((e - 1) as nat);
        let m = ((n + 1) / 2) as nat;
        if e >= 2 {
            lemma_pow2_unfold((e - 1) as nat);
        }
        lemma_log2_ceil(m, (e - 1) as nat);
    }
}

/// Returns the least power of two that is at least `n`, with its exponent.
fn next_pow2(n: usize) -> (r: (u64, u64))
    requires
        n <= pow2(62),
    ensures
        r.0 as nat == pow2(r.1 as nat),
        n <= r.0,
        r.1 as nat == log2_ceil(n as nat),
        r.1 <= 62,
{
    let mut p: u64 = 1;
    let mut e: u64 = 0;
    proof {
        vstd::arithmetic::power2::lemma2_to64();
        vstd::arithmetic::power2::lemma2_to64_rest();
    }
    while p < n as u64
        invariant
            n <= pow2(62),
            p as nat == pow2(e as nat),
            e <= 62,
            e == 0 || pow2((e - 1) as nat) < n,
        decreases 62 - e,
    {
        proof {
            vstd::arithmetic::power2::lemma2_to64();
            vstd::arithmetic::power2::lemma2_to64_rest();
            if e >= 62 {
                lemma_pow2_strictly_increases(e as nat, 62);
                assert(false);
            }
            lemma_pow2_unfold((e + 1) as nat);
            if e + 1 < 62 {
                lemma_pow2_strictly_increases((e + 1) as nat, 62);
            }
        }
        p = p * 2;
        e = e + 1;
    }
    proof {
        lemma_log2_ceil(n as nat, e as nat);
        vstd::arithmetic::power2::lemma2_to64_rest();
        if e < 62 {
            lemma_pow2_strictly_increases(e as nat, 62);
        }
    }
    (p, e)
}

} // verus!
