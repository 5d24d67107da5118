//! A bump-allocated byte heap holding strings and arrays.
//!
//! Every object starts with a 16-byte header: the first word holds the kind
//! in its top 8 bits and the data size in the low 56 bits; the second word
//! holds garbage-collection metadata (bit 0 is the mark). The data follows
//! the header; objects are 8-aligned.
use vstd::prelude::*;

verus! {

pub const HEADER_SIZE: usize = 16;

pub const KIND_SHIFT: u64 = 56;

pub const SIZE_MASK: u64 = 0x00ff_ffff_ffff_ffff;

pub const GC_MARK_BIT: u64 = 1;

/// The kinds of heap objects.
#[derive(Clone, Copy, Debug, PartialEq, Eq)]
pub enum ObjectKind {
    String,
    Array,
}

pub open spec fn kind_code(kind: ObjectKind) -> u64 {
    match kind {
        ObjectKind::String => 0,
        ObjectKind::Array => 1,
    }
}

/// The little-endian bytes of a word.
pub open spec fn le_bytes(v: u64) -> Seq<u8> {
    seq![
        v as u8,
        (v >> 8u64) as u8,
        (v >> 16u64) as u8,
        (v >> 24u64) as u8,
        (v >> 32u64) as u8,
        (v >> 40u64) as u8,
        (v >> 48u64) as u8,
        (v >> 56u64) as u8,
    ]
}

/// The word whose little-endian bytes are `b[0..8]`.
pub open spec fn le_value(b: Seq<u8>) -> u64 {
    (b[0] as u64) | ((b[1] as u64) << 8u64) | ((b[2] as u64) << 16u64) | ((b[3] as u64) << 24u64)
        | ((b[4] as u64) << 32u64) | ((b[5] as u64) << 40u64) | ((b[6] as u64) << 48u64) | ((
    b[7] as u64) << 56u64)
}

/// `mem` with `bytes` written from `offset` on.
pub open spec fn splice(mem: Seq<u8>, offset: int, bytes: Seq<u8>) -> Seq<u8> {
    mem.take(offset) + bytes + mem.skip(offset + bytes.len())
}

/// The word stored at `offset`.
pub open spec fn word_at(mem: Seq<u8>, offset: int) -> u64 {
    le_value(mem.subrange(offset, offset + 8))
}

/// The header word of an object of `kind` with `data_size` bytes of data.
pub open spec fn header_word(kind: ObjectKind, data_size: u64) -> u64 {
    (kind_code(kind) << 56u64) | (data_size & SIZE_MASK)
}

/// The room an object with `data_size` bytes takes: header and data,
/// rounded up to a multiple of 8.
pub open spec fn object_footprint(data_size: int) -> int {
    (HEADER_SIZE + data_size + 7) / 8 * 8
}

/// An object's footprint holds its header and data and is 8-aligned.
pub proof fn lemma_footprint(n: int)
    requires
        n >= 0,
    ensures
        HEADER_SIZE + n <= object_footprint(n) <= HEADER_SIZE + n + 7,
        object_footprint(n) % 8 == 0,
{
}

/// Reading back the bytes of a word gives the word.
pub proof fn lemma_le_roundtrip(v: u64)
    ensures
        le_value(le_bytes(v)) == v,
{
    let b = le_bytes(v);
    let b0 = v as u8;
    let b1 = (v >> 8u64) as u8;
    let b2 = (v >> 16u64) as u8;
    let b3 = (v >> 24u64) as u8;
    let b4 = (v >> 32u64) as u8;
    let b5 = (v >> 40u64) as u8;
    let b6 = (v >> 48u64) as u8;
    let b7 = (v >> 56u64) as u8;
    assert((b0 as u64) | ((b1 as u64) << 8u64) | ((b2 as u64) << 16u64) | ((b3 as u64) << 24u64)
        | ((b4 as u64) << 32u64) | ((b5 as u64) << 40u64) | ((b6 as u64) << 48u64) | ((
    b7 as u64) << 56u64) == v) by (bit_vector)
        requires
            b0 == v as u8,
            b1 == (v >> 8u64) as u8,
            b2 == (v >> 16u64) as u8,
            b3 == (v >> 24u64) as u8,
            b4 == (v >> 32u64) as u8,
            b5 == (v >> 40u64) as u8,
            b6 == (v >> 48u64) as u8,
            b7 == (v >> 56u64) as u8,
    ;
}

/// A bump-allocated heap over a fixed block of bytes.
pub struct Heap {
    memory: Vec<u8>,
    bump: usize,
}

impl Heap {
    /// The bytes of the heap.
    pub closed spec fn mem(&self) -> Seq<u8> {
        self.memory@
    }

    /// The first free offset: every object lies below it.
    pub closed spec fn top(&self) -> nat {
        self.bump as nat
    }

    /// The allocation cursor is aligned and within the memory.
    pub closed spec fn wf(&self) -> bool {
        &&& self.bump <= self.memory@.len()
        &&& self.bump % 8 == 0
    }

    /// A heap of `capacity` zero bytes with nothing allocated.
    pub fn new(capacity: usize) -> (h: Self)
        ensures
            h.wf(),
            h.top() == 0,
            h.mem() == Seq::new(capacity as nat, |i: int| 0u8),
    {
        let memory = vec![0u8; capacity];
        let h = Self { memory, bump: 0 };
        assert(h.mem() =~= Seq::new(capacity as nat, |i: int| 0u8));
        h
    }

    /// Reserves room for an object of `kind` with `data_size` bytes of data
    /// and writes its header (mark cleared). Gives the object's address, or
    /// `None` when the free room is too small; then nothing changes.
    pub fn allocate(&mut self, kind: ObjectKind, data_size: usize) -> (r: Option<usize>)
        requires
            old(self).wf(),
        ensures
            final(self).wf(),
            r is Some <==> old(self).top() + object_footprint(data_size as int) <= old(self).mem().len(),
            final(self).mem().len() == old(self).mem().len(),
            r matches Some(ptr) ==> {
                &&& ptr == old(self).top()
                &&& ptr % 8 == 0
                &&& final(self).top() % 8 == 0
                &&& ptr + HEADER_SIZE + data_size <= final(self).mem().len()
                &&& final(self).top() == old(self).top() + object_footprint(data_size as int)
                &&& final(self).mem() == splice(
                    splice(old(self).mem(), ptr as int, le_bytes(header_word(kind, data_size as u64))),
                    ptr + 8,
                    le_bytes(0),
                )
            },
            r is None ==> *final(self) == *old(self),
    {
        let n = self.memory.len();
        let free = n - self.bump;
        if data_size > free || free - data_size < HEADER_SIZE {
            return None;
        }
        let total = HEADER_SIZE + data_size;
        if total > free {
            return None;
        }
        let rem = total % 8;
        let pad = if rem == 0 { 0 } else { 8 - rem };
        if pad > free - total {
            return None;
        }
        let aligned = total + pad;
        assert(aligned == object_footprint(data_size as int));
        proof {
            lemma_footprint(data_size as int);
        }
        let ptr = self.bump;
        self.bump = self.bump + aligned;
        let kind_bits: u64 = match kind {
            ObjectKind::String => 0,
            ObjectKind::Array => 1,
        };
        let word1 = (kind_bits << KIND_SHIFT) | (data_size as u64 & SIZE_MASK);
        self.write_u64(ptr, word1);
        self.write_u64(ptr + 8, 0);
        Some(ptr)
    }

    /// The number of bytes of the heap.
    pub fn capacity(&self) -> (r: usize)
        ensures
            r == self.mem().len(),
    {
        self.memory.len()
    }

    /// Writes the little-endian bytes of `val` at `offset`.
    pub fn write_u64(&mut self, offset: usize, val: u64)
        requires
            offset + 8 <= old(self).mem().len(),
        ensures
            final(self).mem() == splice(old(self).mem(), offset as int, le_bytes(val)),
            final(self).top() == old(self).top(),
            old(self).wf() ==> final(self).wf(),
    {
        let len = self.memory.len();
        assert(offset + 8 <= len);
        self.memory.set(offset, val as u8);
        self.memory.set(offset + 1, (val >> 8u64) as u8);
        self.memory.set(offset + 2, (val >> 16u64) as u8);
        self.memory.set(offset + 3, (val >> 24u64) as u8);
        self.memory.set(offset + 4, (val >> 32u64) as u8);
        self.memory.set(offset + 5, (val >> 40u64) as u8);
        self.memory.set(offset + 6, (val >> 48u64) as u8);
        self.memory.set(offset + 7, (val >> 56u64) as u8);
        assert(self.mem() =~= splice(old(self).mem(), offset as int, le_bytes(val)));
    }

    /// The word whose little-endian bytes stand at `offset`.
    pub fn read_u64(&self, offset: usize) -> (r: u64)
        requires
            offset + 8 <= self.mem().len(),
        ensures
            r == word_at(self.mem(), offset as int),
    {
        let m = &self.memory;
        let len = m.len();
        assert(offset + 8 <= len);
        (m[offset] as u64) | ((m[offset + 1] as u64) << 8u64) | ((m[offset + 2] as u64) << 16u64)
            | ((m[offset + 3] as u64) << 24u64) | ((m[offset + 4] as u64) << 32u64) | ((m[offset
            + 5] as u64) << 40u64) | ((m[offset + 6] as u64) << 48u64) | ((m[offset + 7] as u64)
            << 56u64)
    }

    /// Copies `bytes` into the heap from `offset` on.
    pub fn write_bytes(&mut self, offset: usize, bytes: &[u8])
        requires
            offset + bytes@.len() <= old(self).mem().len(),
        ensures
            final(self).mem() == splice(old(self).mem(), offset as int, bytes@),
            final(self).top() == old(self).top(),
            old(self).wf() ==> final(self).wf(),
    {
        let len = self.memory.len();
        assert(offset + bytes@.len() <= len);
        let mut i: usize = 0;
        while i < bytes.len()
            invariant
                0 <= i <= bytes@.len(),
                offset + bytes@.len() <= old(self).mem().len(),
                self.bump == old(self).bump,
                self.memory@.len() == old(self).mem().len(),
                old(self).mem().len() <= usize::MAX,
                self.mem() =~= splice(old(self).mem(), offset as int, bytes@.take(i as int)),
            decreases bytes@.len() - i,
        {
            self.memory.set(offset + i, bytes[i]);
            i = i + 1;
            assert(self.mem() =~= splice(old(self).mem(), offset as int, bytes@.take(i as int)));
        }
        assert(bytes@.take(i as int) =~= bytes@);
    }

    /// The `len` bytes from `offset` on.
    pub fn read_bytes(&self, offset: usize, len: usize) -> (r: &[u8])
        requires
            offset + len <= self.mem().len(),
        ensures
            r@ == self.mem().subrange(offset as int, offset + len),
    {
        let cap = self.memory.len();
        assert(offset + len <= cap);
        &self.memory.as_slice()[offset..offset + len]
    }

    /// The kind code stored in the header of the object at `ptr`.
    pub fn get_kind(&self, ptr: usize) -> (r: u8)
        requires
            ptr + 8 <= self.mem().len(),
        ensures
            r == (word_at(self.mem(), ptr as int) >> 56u64) as u8,
    {
        (self.read_u64(ptr) >> KIND_SHIFT) as u8
    }

    /// The data size stored in the header of the object at `ptr`.
    pub fn get_size(&self, ptr: usize) -> (r: u64)
        requires
            ptr + 8 <= self.mem().len(),
        ensures
            r == word_at(self.mem(), ptr as int) & SIZE_MASK,
    {
        self.read_u64(ptr) & SIZE_MASK
    }

    /// The mark bit of the object at `ptr`.
    pub fn get_mark(&self, ptr: usize) -> (r: bool)
        requires
            ptr + 16 <= self.mem().len(),
        ensures
            r == (word_at(self.mem(), ptr + 8) & GC_MARK_BIT != 0),
    {
        let len = self.memory.len();
        assert(ptr + 16 <= len);
        self.read_u64(ptr + 8) & GC_MARK_BIT != 0
    }

    /// Sets or clears the mark bit of the object at `ptr`, keeping the rest
    /// of its metadata word.
    pub fn set_mark(&mut self, ptr: usize, marked: bool)
        requires
            ptr + 16 <= old(self).mem().len(),
        ensures
            final(self).mem() == splice(
                old(self).mem(),
                ptr + 8,
                le_bytes(
                    if marked {
                        word_at(old(self).mem(), ptr + 8) | GC_MARK_BIT
                    } else {
                        word_at(old(self).mem(), ptr + 8) & !GC_MARK_BIT
                    },
                ),
            ),
            final(self).top() == old(self).top(),
            old(self).wf() ==> final(self).wf(),
    {
        let len = self.memory.len();
        assert(ptr + 16 <= len);
        let word2 = self.read_u64(ptr + 8);
        let new_word2 = if marked {
            word2 | GC_MARK_BIT
        } else {
            word2 & !GC_MARK_BIT
        };
        self.write_u64(ptr + 8, new_word2);
    }

    /// Where the data of the object at `ptr` starts.
    pub fn data_ptr(&self, ptr: usize) -> (r: usize)
        requires
            ptr + HEADER_SIZE <= usize::MAX,
        ensures
            r == ptr + HEADER_SIZE,
    {
        ptr + HEADER_SIZE
    }
}

/// A word written at `offset` reads back as written.
pub proof fn law_read_after_write(mem: Seq<u8>, offset: int, v: u64)
    requires
        0 <= offset,
        offset + 8 <= mem.len(),
    ensures
        word_at(splice(mem, offset, le_bytes(v)), offset) == v,
{
    lemma_le_roundtrip(v);
    assert(splice(mem, offset, le_bytes(v)).subrange(offset, offset + 8) =~= le_bytes(v));
}

/// Writing a word leaves every word that does not overlap it unchanged.
pub proof fn law_write_preserves_other_words(mem: Seq<u8>, offset: int, v: u64, other: int)
    requires
        0 <= offset,
        offset + 8 <= mem.len(),
        0 <= other,
        other + 8 <= mem.len(),
        other + 8 <= offset || offset + 8 <= other,
    ensures
        word_at(splice(mem, offset, le_bytes(v)), other) == word_at(mem, other),
{
    assert(splice(mem, offset, le_bytes(v)).subrange(other, other + 8) =~= mem.subrange(
        other,
        other + 8,
    ));
}

/// The header word of an object gives back its kind (top byte) and its
/// size (low 56 bits), for every size that fits in 56 bits.
pub proof fn law_header_decodes(kind: ObjectKind, data_size: u64)
    requires
        data_size <= SIZE_MASK,
    ensures
        (header_word(kind, data_size) >> 56u64) as u8 == kind_code(kind),
        header_word(kind, data_size) & SIZE_MASK == data_size,
{
    let k = kind_code(kind);
    assert(k <= 1);
    assert(((k << 56u64) | (data_size & 0x00ff_ffff_ffff_ffffu64)) >> 56u64 == k
        && ((k << 56u64) | (data_size & 0x00ff_ffff_ffff_ffffu64)) & 0x00ff_ffff_ffff_ffffu64
        == data_size) by (bit_vector)
        requires
            k <= 1,
            data_size <= 0x00ff_ffff_ffff_ffffu64,
    ;
}

/// Setting the mark bit and reading it back gives the value set, and the
/// rest of the metadata word is kept.
pub proof fn law_mark_roundtrip(word: u64, marked: bool)
    ensures
        ((if marked { word | GC_MARK_BIT } else { word & !GC_MARK_BIT }) & GC_MARK_BIT != 0)
            == marked,
        (if marked { word | GC_MARK_BIT } else { word & !GC_MARK_BIT }) & !GC_MARK_BIT == word
            & !GC_MARK_BIT,
{
    assert((word | 1u64) & 1u64 != 0 && (word & !1u64) & 1u64 == 0 && (word | 1u64) & !1u64
        == word & !1u64 && (word & !1u64) & !1u64 == word & !1u64) by (bit_vector);
}

} // verus!
