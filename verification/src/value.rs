//! Tagged machine values.
//!
//! Every register and heap word holds a 64-bit value whose three low bits
//! are a tag: `001` marks an integer (the payload is the remaining 61 bits,
//! sign included), `011` marks a boolean (bit 3 holds it) and `000` marks a
//! heap pointer (the word itself is the 8-aligned address).
use vstd::prelude::*;

verus! {

pub type Value = u64;

pub const TAG_MASK: u64 = 0b111;

pub const TAG_INT: u64 = 0b001;

pub const TAG_POINTER: u64 = 0b000;

pub const TAG_BOOL: u64 = 0b011;

/// Smallest integer that a tagged value holds without loss.
pub open spec fn min_small_int() -> int {
    -0x1000_0000_0000_0000
}

/// Largest integer that a tagged value holds without loss.
pub open spec fn max_small_int() -> int {
    0x0fff_ffff_ffff_ffff
}

/// `n` fits in the 61-bit payload of a tagged integer.
pub open spec fn is_small_int(n: int) -> bool {
    min_small_int() <= n <= max_small_int()
}

/// The tagged integer for `n`: `8 * n + 1`, reduced modulo 2^64.
pub open spec fn spec_tag_int(n: i64) -> u64 {
    (((n as int) * 8 + 1) % 0x1_0000_0000_0000_0000) as u64
}

/// The integer that a tagged word stands for: its two's-complement reading,
/// divided by 8 and rounded down (the tag bits are dropped).
pub open spec fn spec_untag_int(v: u64) -> int {
    (v as i64) as int / 8
}

pub open spec fn spec_tag_bool(b: bool) -> u64 {
    if b { 0b1011 } else { 0b0011 }
}

pub open spec fn spec_is_int(v: u64) -> bool {
    v % 8 == 1
}

pub open spec fn spec_is_bool(v: u64) -> bool {
    v % 8 == 3
}

pub open spec fn spec_is_pointer(v: u64) -> bool {
    v % 8 == 0
}

pub open spec fn spec_untag_bool(v: u64) -> bool {
    (v / 8) % 2 == 1
}

proof fn lemma_tag_int_bits(n: i64)
    ensures
        ((n as u64) << 3u64) | 1u64 == spec_tag_int(n),
{
    let u = n as u64;
    assert(((n as u64) << 3u64) | 1u64 == ((n as u64) * 8) as u64 + 1) by (bit_vector);
    assert(n >= 0 ==> u == n) by (bit_vector) requires u == n as u64;
    assert(n < 0 ==> u == n + 0x1_0000_0000_0000_0000) by (bit_vector) requires u == n as u64;
    assert(((u as int) * 8 + 1) % 0x1_0000_0000_0000_0000 == ((n as int) * 8 + 1) % 0x1_0000_0000_0000_0000) by (nonlinear_arith)
        requires n >= 0 ==> u == n, n < 0 ==> u == n + 0x1_0000_0000_0000_0000;
    assert((((u as int) * 8) as u64 + 1) as int == ((u as int) * 8 + 1) % 0x1_0000_0000_0000_0000) by (bit_vector);
}

/// Tags `n` as an integer value.
pub fn tag_int(n: i64) -> (r: Value)
    ensures
        r == spec_tag_int(n),
        spec_is_int(r),
{
    proof {
        lemma_tag_int_bits(n);
    }
    let r = ((n as u64) << 3u64) | TAG_INT;
    assert(r % 8 == 1) by (bit_vector)
        requires r == ((n as u64) << 3u64) | 1u64;
    r
}

/// The integer payload of a tagged integer value.
pub fn untag_int(val: Value) -> (r: i64)
    ensures
        r as int == spec_untag_int(val),
{
    let x = val as i64;
    let r = x >> 3u64;
    assert(r * 8 <= x && x < r * 8 + 8) by (bit_vector)
        requires r == x >> 3u64;
    r
}

pub fn is_int(val: Value) -> (r: bool)
    ensures
        r == spec_is_int(val),
{
    let r = val & TAG_MASK == TAG_INT;
    assert(val & 7u64 == val % 8) by (bit_vector);
    r
}

/// A heap address as a value; addresses are 8-aligned, so the tag is `000`.
pub fn tag_pointer(ptr: usize) -> (r: Value)
    ensures
        r == ptr,
{
    ptr as u64
}

pub fn untag_pointer(val: Value) -> (r: usize)
    requires
        val <= usize::MAX,
    ensures
        r == val,
{
    val as usize
}

pub fn is_pointer(val: Value) -> (r: bool)
    ensures
        r == spec_is_pointer(val),
{
    assert(val & 7u64 == val % 8) by (bit_vector);
    val & TAG_MASK == TAG_POINTER
}

pub fn tag_bool(b: bool) -> (r: Value)
    ensures
        r == spec_tag_bool(b),
{
    let bit: u64 = if b { 1 } else { 0 };
    let r = (bit << 3u64) | TAG_BOOL;
    assert(bit == 1 ==> r == 0b1011) by (bit_vector) requires r == (bit << 3u64) | 3u64;
    assert(bit == 0 ==> r == 0b0011) by (bit_vector) requires r == (bit << 3u64) | 3u64;
    r
}

pub fn untag_bool(val: Value) -> (r: bool)
    ensures
        r == spec_untag_bool(val),
{
    assert((val >> 3u64) & 1u64 == (val / 8) % 2) by (bit_vector);
    (val >> 3u64) & 1u64 == 1
}

pub fn is_bool(val: Value) -> (r: bool)
    ensures
        r == spec_is_bool(val),
{
    assert(val & 7u64 == val % 8) by (bit_vector);
    val & TAG_MASK == TAG_BOOL
}

proof fn lemma_u64_as_i64(v: u64)
    ensures
        v < 0x8000_0000_0000_0000 ==> (v as i64) as int == v as int,
        v >= 0x8000_0000_0000_0000 ==> (v as i64) as int == v as int - 0x1_0000_0000_0000_0000,
{
    let x = v as i64;
    assert(v < 0x8000_0000_0000_0000 ==> x == v) by (bit_vector)
        requires x == v as i64;
    assert(v >= 0x8000_0000_0000_0000 ==> x == v - 0x1_0000_0000_0000_0000) by (bit_vector)
        requires x == v as i64;
}

/// Tagging then untagging an integer gives it back, for every integer that
/// fits in the 61-bit payload.
pub proof fn law_untag_tag_int(n: i64)
    requires
        is_small_int(n as int),
    ensures
        spec_untag_int(spec_tag_int(n)) == n,
        spec_is_int(spec_tag_int(n)),
{
    let t = spec_tag_int(n);
    lemma_u64_as_i64(t);
    if n >= 0 {
        assert(t as int == n * 8 + 1);
    } else {
        assert(t as int == n * 8 + 1 + 0x1_0000_0000_0000_0000);
    }
}

/// Tagging then untagging a boolean gives it back.
pub proof fn law_untag_tag_bool(b: bool)
    ensures
        spec_untag_bool(spec_tag_bool(b)) == b,
        spec_is_bool(spec_tag_bool(b)),
{
}

/// A value carries exactly one kind of tag at most: integers, booleans and
/// pointers are told apart by their tag bits.
pub proof fn law_tags_disjoint(v: u64)
    ensures
        !(spec_is_int(v) && spec_is_bool(v)),
        !(spec_is_int(v) && spec_is_pointer(v)),
        !(spec_is_bool(v) && spec_is_pointer(v)),
{
}

} // verus!
