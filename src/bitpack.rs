//! Bit fields inside one machine word.
//!
//! A field is described by its `shift` (the number of less significant bits
//! below it) and its `len` (the number of bits it occupies). Packing a value
//! clears the field in the carrier word and ors the value in; unpacking shifts
//! the field down and masks it.
use vstd::prelude::*;

verus! {

/// A word of `len` one-bits, starting at the least significant bit.
pub open spec fn mask_of(len: u64) -> u64 {
    if len == 0 {
        0
    } else {
        u64::MAX >> ((64 - len) as u64)
    }
}

/// The bits of the field at `shift`, `len` inside a word.
pub open spec fn field_mask(shift: u64, len: u64) -> u64 {
    mask_of(len) << shift
}

/// What `pack` writes: the carrier with the field replaced by `value`.
pub open spec fn pack_spec(value: u64, into: u64, shift: u64, len: u64) -> u64 {
    (into & !field_mask(shift, len)) | (value << shift)
}

/// What `unpack` reads: the field's bits, shifted down.
pub open spec fn unpack_spec(word: u64, shift: u64, len: u64) -> u64 {
    (word >> shift) & mask_of(len)
}

/// A field lies inside the word and is not empty.
pub open spec fn field_fits(shift: u64, len: u64) -> bool {
    1 <= len && shift + len <= 64
}

/// Two fields share no bit.
pub open spec fn fields_disjoint(s1: u64, l1: u64, s2: u64, l2: u64) -> bool {
    s1 + l1 <= s2 || s2 + l2 <= s1
}

/// Returns a word of `bits` one-bits, starting at the least significant bit.
pub fn make_mask(bits: u64) -> (r: u64)
    requires
        1 <= bits <= 64,
    ensures
        r == mask_of(bits),
        r as nat == vstd::arithmetic::power2::pow2(bits as nat) - 1,
{
    proof {
        lemma_mask_is_pow2_minus_one(bits);
    }
    u64::MAX >> (64 - bits)
}

/// Writes `value` into the field at `shift`, `len` of `into`.
pub fn pack(value: u64, into: u64, shift: u64, len: u64) -> (r: u64)
    requires
        field_fits(shift, len),
        value <= mask_of(len),
    ensures
        r == pack_spec(value, into, shift, len),
        unpack_spec(r, shift, len) == value,
        r & !field_mask(shift, len) == into & !field_mask(shift, len),
{
    proof {
        lemma_pack_unpack(value, into, shift, len);
    }
    let m = u64::MAX >> (64 - len);
    (into & !(m << shift)) | (value << shift)
}

/// Reads the field at `shift`, `len` of `word`.
pub fn unpack(word: u64, shift: u64, len: u64) -> (r: u64)
    requires
        field_fits(shift, len),
    ensures
        r == unpack_spec(word, shift, len),
        r <= mask_of(len),
{
    proof {
        lemma_unpack_bounded(word, shift, len);
    }
    let m = u64::MAX >> (64 - len);
    (word >> shift) & m
}

/// A mask of `len` bits is `2^len - 1`.
pub proof fn lemma_mask_is_pow2_minus_one(len: u64)
    requires
        1 <= len <= 64,
    ensures
        mask_of(len) as nat == vstd::arithmetic::power2::pow2(len as nat) - 1,
{
    vstd::arithmetic::power2::lemma2_to64();
    vstd::arithmetic::power2::lemma2_to64_rest();
    if len < 64 {
        assert(u64::MAX >> ((64 - len) as u64) == ((1u64 << len) - 1) as u64) by (bit_vector)
            requires
                1 <= len < 64,
        ;
        vstd::bits::lemma_u64_shl_is_mul(1, len);
    } else {
        assert(u64::MAX >> 0u64 == u64::MAX) by (bit_vector);
    }
}

/// The field read back after a write is the value written.
pub proof fn lemma_unpack_bounded(word: u64, shift: u64, len: u64)
    requires
        field_fits(shift, len),
    ensures
        unpack_spec(word, shift, len) <= mask_of(len),
{
    assert(((word >> shift) & (u64::MAX >> ((64 - len) as u64))) <= (u64::MAX >> ((64 - len) as u64))) by (bit_vector);
}

/// Packing then unpacking the same field yields the value, and every bit
/// outside the field keeps its value from the carrier.
pub proof fn lemma_pack_unpack(value: u64, into: u64, shift: u64, len: u64)
    requires
        field_fits(shift, len),
        value <= mask_of(len),
    ensures
        unpack_spec(pack_spec(value, into, shift, len), shift, len) == value,
        pack_spec(value, into, shift, len) & !field_mask(shift, len) == into & !field_mask(shift, len),
{
    assert({
        let m = u64::MAX >> ((64 - len) as u64);
        let r = (into & !(m << shift)) | (value << shift);
        &&& ((r >> shift) & m) == value
        &&& r & !(m << shift) == into & !(m << shift)
    }) by (bit_vector)
        requires
            1 <= len,
            shift + len <= 64,
            value <= u64::MAX >> ((64 - len) as u64),
    ;
}

/// Packing a field leaves every field disjoint from it as it was.
pub proof fn lemma_pack_other(value: u64, into: u64, shift: u64, len: u64, s2: u64, l2: u64)
    requires
        field_fits(shift, len),
        field_fits(s2, l2),
        fields_disjoint(shift, len, s2, l2),
        value <= mask_of(len),
    ensures
        unpack_spec(pack_spec(value, into, shift, len), s2, l2) == unpack_spec(into, s2, l2),
{
    assert({
        let m = u64::MAX >> ((64 - len) as u64);
        let m2 = u64::MAX >> ((64 - l2) as u64);
        let r = (into & !(m << shift)) | (value << shift);
        ((r >> s2) & m2) == ((into >> s2) & m2)
    }) by (bit_vector)
        requires
            1 <= len,
            shift + len <= 64,
            1 <= l2,
            s2 + l2 <= 64,
            shift + len <= s2 || s2 + l2 <= shift,
            value <= u64::MAX >> ((64 - len) as u64),
    ;
}

/// Packing a field that lies below bit `top` into a word with no bit at or
/// above `top` leaves no bit at or above `top`.
pub proof fn lemma_pack_below(value: u64, into: u64, shift: u64, len: u64, top: u64)
    requires
        field_fits(shift, len),
        shift + len <= top,
        top <= 64,
        value <= mask_of(len),
        into <= mask_of(top),
    ensures
        pack_spec(value, into, shift, len) <= mask_of(top),
{
    assert({
        let m = u64::MAX >> ((64 - len) as u64);
        let r = (into & !(m << shift)) | (value << shift);
        r <= u64::MAX >> ((64 - top) as u64)
    }) by (bit_vector)
        requires
            1 <= len,
            shift + len <= top,
            top <= 64,
            value <= u64::MAX >> ((64 - len) as u64),
            into <= u64::MAX >> ((64 - top) as u64),
    ;
}

/// Where two words agree outside a set of bits, they agree outside any
/// larger set.
pub proof fn lemma_agree_outside_union(a: u64, b: u64, m1: u64, m2: u64)
    requires
        a & !m1 == b & !m1,
    ensures
        a & !(m1 | m2) == b & !(m1 | m2),
{
    assert(a & !m1 == b & !m1 ==> a & !(m1 | m2) == b & !(m1 | m2)) by (bit_vector);
}

/// A wider mask holds a narrower one.
pub proof fn lemma_mask_monotonic(a: u64, b: u64)
    requires
        a <= b <= 64,
    ensures
        mask_of(a) <= mask_of(b),
{
    if a >= 1 {
        assert(u64::MAX >> ((64 - a) as u64) <= u64::MAX >> ((64 - b) as u64)) by (bit_vector)
            requires
                1 <= a <= b <= 64,
        ;
    }
}

} // verus!
