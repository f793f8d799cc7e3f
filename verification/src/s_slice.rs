//! The cell primitive: the unit of allocation.
//!
//! A cell is a contiguous byte range `[header word | payload | footer word]`
//! in the backing store. Header and footer are identical little-endian words
//! packing `(payload_size, allocated)`: the highest bit is the allocated
//! flag, the remaining 63 bits are the payload size. The duplicated footer
//! lets a cell's physical predecessor be found in constant time.

use vstd::prelude::*;
use crate::mem_context::{Memory, word_at, lemma_word_at_frame};
use crate::{ALLOCATED_BIT, CELL_META_SIZE, CELL_MIN_SIZE, EMPTY_PTR, PTR_SIZE, SIZE_MASK};

verus! {

/// Which end of a cell a pointer designates: its start, or one past its
/// footer.
#[derive(Clone, Copy, PartialEq, Eq, Structural, Debug)]
pub enum Side {
    Start,
    End,
}

/// The boundary-tag word for a payload of `size` bytes in the given state.
pub open spec fn spec_encode_meta(size: u64, allocated: bool) -> u64 {
    if allocated {
        size | ALLOCATED_BIT
    } else {
        size
    }
}

/// The payload size packed into boundary-tag word `w`.
pub open spec fn spec_decode_size(w: u64) -> u64 {
    w & SIZE_MASK
}

/// The allocated flag packed into boundary-tag word `w`.
pub open spec fn spec_decode_allocated(w: u64) -> bool {
    w & ALLOCATED_BIT == ALLOCATED_BIT
}

/// Packing a size below `2^63` and unpacking it again is the identity.
pub proof fn lemma_meta_roundtrip(size: u64)
    requires
        size < ALLOCATED_BIT,
    ensures
        spec_decode_size(spec_encode_meta(size, true)) == size,
        spec_decode_size(spec_encode_meta(size, false)) == size,
        spec_decode_allocated(spec_encode_meta(size, true)),
        !spec_decode_allocated(spec_encode_meta(size, false)),
{
    assert((size | 0x8000_0000_0000_0000u64) & 0x7fff_ffff_ffff_ffffu64 == size
        && (size | 0x8000_0000_0000_0000u64) & 0x8000_0000_0000_0000u64
            == 0x8000_0000_0000_0000u64
        && size & 0x7fff_ffff_ffff_ffffu64 == size
        && size & 0x8000_0000_0000_0000u64 != 0x8000_0000_0000_0000u64) by (bit_vector)
        requires
            size < 0x8000_0000_0000_0000u64,
    ;
}

/// Any word equals its own unpacked size re-packed with its own unpacked
/// flag; and the unpacked size is always below `2^63`.
pub proof fn lemma_meta_recompose(w: u64)
    ensures
        spec_encode_meta(spec_decode_size(w), spec_decode_allocated(w)) == w,
        spec_decode_size(w) < ALLOCATED_BIT,
{
    assert(((w & 0x8000_0000_0000_0000u64 == 0x8000_0000_0000_0000u64)
        ==> ((w & 0x7fff_ffff_ffff_ffffu64) | 0x8000_0000_0000_0000u64) == w)
        && ((w & 0x8000_0000_0000_0000u64 != 0x8000_0000_0000_0000u64)
            ==> (w & 0x7fff_ffff_ffff_ffffu64) == w)
        && (w & 0x7fff_ffff_ffff_ffffu64) < 0x8000_0000_0000_0000u64) by (bit_vector);
}

/// A handle on one cell of the backing store: its start offset, its payload
/// size, and its allocated flag, all mirrored from the persisted boundary
/// tags.
#[derive(Clone, Copy, PartialEq, Eq, Structural, Debug)]
pub struct SSlice {
    pub ptr: u64,
    pub size: u64,
    pub allocated: bool,
}

impl SSlice {
    /// Offset of the cell's header word.
    pub open spec fn header_off(self) -> int {
        self.ptr as int
    }

    /// Offset of the first payload byte.
    pub open spec fn payload_off(self) -> int {
        self.ptr + CELL_META_SIZE
    }

    /// Offset of the cell's footer word.
    pub open spec fn footer_off(self) -> int {
        self.ptr + CELL_META_SIZE + self.size
    }

    /// Offset one past the cell's footer: where its physical successor would
    /// begin.
    pub open spec fn end_off(self) -> int {
        self.ptr + self.size + 2 * CELL_META_SIZE
    }

    /// The whole byte footprint of the cell: payload plus both tags.
    pub open spec fn total_spec(self) -> int {
        self.size + 2 * CELL_META_SIZE
    }

    /// The handle faithfully mirrors the region `m`: the cell lies within
    /// bounds, its payload size is representable and at least the minimum,
    /// and both boundary tags hold exactly the handle's size and flag.
    pub open spec fn wf_in(self, m: Seq<u8>) -> bool {
        &&& CELL_MIN_SIZE <= self.size < ALLOCATED_BIT
        &&& self.end_off() <= m.len()
        &&& word_at(m, self.header_off()) == spec_encode_meta(self.size, self.allocated)
        &&& word_at(m, self.footer_off()) == spec_encode_meta(self.size, self.allocated)
    }

    /// The cell's payload bytes in region `m`.
    pub open spec fn payload(self, m: Seq<u8>) -> Seq<u8> {
        m.subrange(self.payload_off(), self.payload_off() + self.size)
    }
}

/// A well-formed handle stays well-formed in a region that is at least as
/// long and agrees with the old one on the cell's whole footprint.
pub proof fn lemma_wf_frame(c: SSlice, m1: Seq<u8>, m2: Seq<u8>)
    requires
        c.wf_in(m1),
        m1.len() <= m2.len(),
        forall|i: int| c.ptr <= i < c.end_off() ==> m2[i] == m1[i],
    ensures
        c.wf_in(m2),
        c.payload(m2) == c.payload(m1),
{
    lemma_word_at_frame_grow(m1, m2, c.header_off());
    lemma_word_at_frame_grow(m1, m2, c.footer_off());
    assert(c.payload(m2) =~= c.payload(m1));
}

/// As [`lemma_word_at_frame`], but the second region may be longer.
pub proof fn lemma_word_at_frame_grow(m1: Seq<u8>, m2: Seq<u8>, off: int)
    requires
        0 <= off,
        off + 8 <= m1.len(),
        m1.len() <= m2.len(),
        forall|i: int| off <= i < off + 8 ==> m2[i] == m1[i],
    ensures
        word_at(m2, off) == word_at(m1, off),
{
    assert(m2.subrange(off, off + 8) =~= m1.subrange(off, off + 8));
}

/// The cell that a start pointer designates in region `m`, if the bytes
/// there parse as a sound cell: the pointer is no sentinel, the decoded
/// payload size is at least the minimum, the whole cell lies within bounds,
/// and header and footer agree.
pub open spec fn spec_parse_cell(m: Seq<u8>, ptr: u64) -> Option<SSlice> {
    if ptr == EMPTY_PTR || ptr + 2 * CELL_META_SIZE > m.len() {
        None
    } else {
        let w = word_at(m, ptr as int);
        let c = SSlice {
            ptr,
            size: spec_decode_size(w),
            allocated: spec_decode_allocated(w),
        };
        if c.size < CELL_MIN_SIZE || c.end_off() > m.len() {
            None
        } else if word_at(m, c.footer_off()) == w {
            Some(c)
        } else {
            None
        }
    }
}

/// The cell whose footprint ends exactly at `ptr` in region `m`, recovered
/// through its footer, if the bytes parse as a sound cell.
pub open spec fn spec_parse_cell_end(m: Seq<u8>, ptr: u64) -> Option<SSlice> {
    if ptr == EMPTY_PTR || ptr < 2 * CELL_META_SIZE || ptr > m.len() {
        None
    } else {
        let w = word_at(m, ptr - CELL_META_SIZE);
        let size = spec_decode_size(w);
        if size < CELL_MIN_SIZE || ptr < size + 2 * CELL_META_SIZE {
            None
        } else {
            let c = SSlice {
                ptr: (ptr - size - 2 * CELL_META_SIZE) as u64,
                size,
                allocated: spec_decode_allocated(w),
            };
            if word_at(m, c.header_off()) == w {
                Some(c)
            } else {
                None
            }
        }
    }
}

/// Whatever either parser returns is a well-formed handle anchored at the
/// given pointer.
pub proof fn lemma_parse_cell_sound(m: Seq<u8>, ptr: u64)
    ensures
        spec_parse_cell(m, ptr) matches Some(c)
            ==> c.wf_in(m) && c.ptr == ptr,
        spec_parse_cell_end(m, ptr) matches Some(c)
            ==> c.wf_in(m) && c.end_off() == ptr,
{
    if ptr != EMPTY_PTR && ptr + 2 * CELL_META_SIZE <= m.len() {
        lemma_meta_recompose(word_at(m, ptr as int));
    }
    if ptr != EMPTY_PTR && 2 * CELL_META_SIZE <= ptr <= m.len() {
        lemma_meta_recompose(word_at(m, ptr - CELL_META_SIZE));
    }
}

/// A well-formed handle is exactly what parsing its own pointers yields:
/// re-attachment from either side recovers the same cell.
pub proof fn lemma_parse_cell_complete(m: Seq<u8>, c: SSlice)
    requires
        c.wf_in(m),
        m.len() <= SIZE_MASK,
    ensures
        spec_parse_cell(m, c.ptr) == Some(c),
        spec_parse_cell_end(m, (c.ptr + c.size + 2 * CELL_META_SIZE) as u64) == Some(c),
{
    lemma_meta_roundtrip(c.size);
    assert(c.end_off() <= m.len() <= SIZE_MASK < EMPTY_PTR);
}

impl SSlice {
    /// Write matching header and footer words for a payload of `size` bytes
    /// at `ptr`, in the given allocation state. Nothing outside the two tag
    /// words changes.
    pub fn write_meta(mem: &mut Memory, ptr: u64, size: u64, allocated: bool)
        requires
            CELL_MIN_SIZE <= size < ALLOCATED_BIT,
            ptr + size + 2 * CELL_META_SIZE <= old(mem)@.len(),
        ensures
            final(mem).wf() == old(mem).wf(),
            final(mem).max_pages_spec() == old(mem).max_pages_spec(),
            final(mem)@.len() == old(mem)@.len(),
            forall|i: int|
                0 <= i < old(mem)@.len()
                    && !(ptr <= i < ptr + CELL_META_SIZE)
                    && !(ptr + CELL_META_SIZE + size <= i < ptr + size + 2 * CELL_META_SIZE)
                    ==> final(mem)@[i] == old(mem)@[i],
            word_at(final(mem)@, ptr as int) == spec_encode_meta(size, allocated),
            word_at(final(mem)@, ptr + CELL_META_SIZE + size)
                == spec_encode_meta(size, allocated),
            (SSlice { ptr, size, allocated }).wf_in(final(mem)@),
    {
        let n: u64 = mem.len_bytes();
        let w: u64 = if allocated {
            size | ALLOCATED_BIT
        } else {
            size
        };
        mem.write_word(ptr, w);
        let ghost m1: Seq<u8> = mem@;
        mem.write_word(ptr + CELL_META_SIZE + size, w);
        proof {
            lemma_word_at_frame(m1, mem@, ptr as int);
            lemma_meta_roundtrip(size);
        }
    }

    /// Decode the boundary tag stored at `ptr`: the payload size and the
    /// allocated flag.
    pub fn read_meta(mem: &Memory, ptr: u64) -> (r: (u64, bool))
        requires
            ptr + CELL_META_SIZE <= mem@.len(),
        ensures
            r.0 == spec_decode_size(word_at(mem@, ptr as int)),
            r.1 == spec_decode_allocated(word_at(mem@, ptr as int)),
            r.0 < ALLOCATED_BIT,
    {
        let w: u64 = mem.read_word(ptr);
        proof {
            lemma_meta_recompose(w);
        }
        (w & SIZE_MASK, w & ALLOCATED_BIT == ALLOCATED_BIT)
    }

    /// Construct a fresh cell at `ptr` with the given payload size and
    /// state, writing its two boundary tags.
    pub fn new(mem: &mut Memory, ptr: u64, size: u64, allocated: bool) -> (r: SSlice)
        requires
            CELL_MIN_SIZE <= size < ALLOCATED_BIT,
            ptr + size + 2 * CELL_META_SIZE <= old(mem)@.len(),
        ensures
            r == (SSlice { ptr, size, allocated }),
            r.wf_in(final(mem)@),
            final(mem).wf() == old(mem).wf(),
            final(mem).max_pages_spec() == old(mem).max_pages_spec(),
            final(mem)@.len() == old(mem)@.len(),
            forall|i: int|
                0 <= i < old(mem)@.len()
                    && !(ptr <= i < ptr + CELL_META_SIZE)
                    && !(ptr + CELL_META_SIZE + size <= i < ptr + size + 2 * CELL_META_SIZE)
                    ==> final(mem)@[i] == old(mem)@[i],
    {
        Self::write_meta(mem, ptr, size, allocated);
        SSlice { ptr, size, allocated }
    }

    /// As [`SSlice::new`], but `total_size` counts the two tag words as well
    /// as the payload.
    pub fn new_total_size(mem: &mut Memory, ptr: u64, total_size: u64, allocated: bool)
        -> (r: SSlice)
        requires
            CELL_MIN_SIZE + 2 * CELL_META_SIZE <= total_size,
            total_size < ALLOCATED_BIT,
            ptr + total_size <= old(mem)@.len(),
        ensures
            r == (SSlice { ptr, size: (total_size - 2 * CELL_META_SIZE) as u64, allocated }),
            r.wf_in(final(mem)@),
            r.total_spec() == total_size,
            final(mem).wf() == old(mem).wf(),
            final(mem).max_pages_spec() == old(mem).max_pages_spec(),
            final(mem)@.len() == old(mem)@.len(),
            forall|i: int|
                0 <= i < old(mem)@.len() && !(ptr <= i < ptr + total_size)
                    ==> final(mem)@[i] == old(mem)@[i],
    {
        Self::new(mem, ptr, total_size - 2 * CELL_META_SIZE, allocated)
    }

    /// Reconstruct a cell handle from a pointer that is either the cell's
    /// start (`Side::Start`) or the offset one past its footer
    /// (`Side::End`), validating bounds, minimum size, and the agreement of
    /// the two boundary tags. This is the only mechanism for discovering
    /// neighbors and for re-attaching after a restart.
    pub fn from_ptr(mem: &Memory, ptr: u64, side: Side) -> (r: Option<SSlice>)
        ensures
            side == Side::Start ==> r == spec_parse_cell(mem@, ptr),
            side == Side::End ==> r == spec_parse_cell_end(mem@, ptr),
            r matches Some(c) ==> c.wf_in(mem@),
    {
        proof {
            lemma_parse_cell_sound(mem@, ptr);
        }
        let n: u64 = mem.len_bytes();
        match side {
            Side::Start => {
                if ptr == EMPTY_PTR || ptr > n || n - ptr < 2 * CELL_META_SIZE {
                    return None;
                }
                let (size, allocated) = Self::read_meta(mem, ptr);
                if size < CELL_MIN_SIZE || size > n - ptr - 2 * CELL_META_SIZE {
                    return None;
                }
                let c = SSlice { ptr, size, allocated };
                let w: u64 = mem.read_word(ptr);
                let f: u64 = mem.read_word(ptr + CELL_META_SIZE + size);
                if f == w {
                    Some(c)
                } else {
                    None
                }
            },
            Side::End => {
                if ptr == EMPTY_PTR || ptr < 2 * CELL_META_SIZE || ptr > n {
                    return None;
                }
                let (size, allocated) = Self::read_meta(mem, ptr - CELL_META_SIZE);
                if size < CELL_MIN_SIZE || size > ptr - 2 * CELL_META_SIZE {
                    return None;
                }
                let start: u64 = ptr - size - 2 * CELL_META_SIZE;
                let c = SSlice { ptr: start, size, allocated };
                let w: u64 = mem.read_word(ptr - CELL_META_SIZE);
                let h: u64 = mem.read_word(start);
                if h == w {
                    Some(c)
                } else {
                    None
                }
            },
        }
    }
}

impl SSlice {
    /// The free-list predecessor pointer a free cell stores in its first
    /// payload word.
    pub open spec fn prev_free(self, m: Seq<u8>) -> u64 {
        word_at(m, self.payload_off())
    }

    /// The free-list successor pointer a free cell stores in its second
    /// payload word.
    pub open spec fn next_free(self, m: Seq<u8>) -> u64 {
        word_at(m, self.payload_off() + PTR_SIZE)
    }

    /// The cell's payload size in bytes.
    pub fn get_size_bytes(&self) -> (r: u64)
        ensures
            r == self.size,
    {
        self.size
    }

    /// The cell's whole footprint in bytes: payload plus both boundary tags.
    pub fn get_total_size_bytes(&self) -> (r: u64)
        requires
            self.size < ALLOCATED_BIT,
        ensures
            r == self.total_spec(),
    {
        self.size + 2 * CELL_META_SIZE
    }

    /// The cell's start offset.
    pub fn get_ptr(&self) -> (r: u64)
        ensures
            r == self.ptr,
    {
        self.ptr
    }

    /// The cached `(payload_size, allocated)` pair.
    pub fn get_meta(&self) -> (r: (u64, bool))
        ensures
            r.0 == self.size,
            r.1 == self.allocated,
    {
        (self.size, self.allocated)
    }

    /// The offset one past this cell's footer, where its physical successor
    /// would begin.
    pub fn get_next_neighbor_ptr(&self) -> (r: u64)
        requires
            self.ptr + self.size + 2 * CELL_META_SIZE <= u64::MAX,
        ensures
            r == self.end_off(),
    {
        self.ptr + self.size + 2 * CELL_META_SIZE
    }

    /// Rewrite both boundary tags with the given allocated flag, leaving
    /// size, position and payload as they were.
    pub fn set_allocated(&mut self, mem: &mut Memory, allocated: bool)
        requires
            old(self).wf_in(old(mem)@),
        ensures
            *final(self) == (SSlice { allocated, ..*old(self) }),
            final(self).wf_in(final(mem)@),
            final(mem).wf() == old(mem).wf(),
            final(mem).max_pages_spec() == old(mem).max_pages_spec(),
            final(mem)@.len() == old(mem)@.len(),
            forall|i: int|
                0 <= i < old(mem)@.len()
                    && !(old(self).ptr <= i < old(self).ptr + CELL_META_SIZE)
                    && !(old(self).footer_off() <= i < old(self).footer_off() + CELL_META_SIZE)
                    ==> final(mem)@[i] == old(mem)@[i],
            final(self).payload(final(mem)@) == old(self).payload(old(mem)@),
    {
        SSlice::write_meta(mem, self.ptr, self.size, allocated);
        self.allocated = allocated;
        proof {
            assert(final(self).payload(final(mem)@) =~= old(self).payload(old(mem)@));
        }
    }

    /// Write `data` into the payload at `offset`, bounds-checked against the
    /// payload size by precondition. Nothing outside the written byte range
    /// changes; in particular both boundary tags stay intact.
    pub fn _write_bytes(&self, mem: &mut Memory, offset: u64, data: &[u8])
        requires
            self.wf_in(old(mem)@),
            offset + data@.len() <= self.size,
        ensures
            self.wf_in(final(mem)@),
            final(mem).wf() == old(mem).wf(),
            final(mem).max_pages_spec() == old(mem).max_pages_spec(),
            final(mem)@.len() == old(mem)@.len(),
            forall|i: int|
                0 <= i < old(mem)@.len()
                    && !(self.payload_off() + offset <= i
                        < self.payload_off() + offset + data@.len())
                    ==> final(mem)@[i] == old(mem)@[i],
            final(mem)@.subrange(
                self.payload_off() + offset,
                self.payload_off() + offset + data@.len() as int,
            ) == data@,
    {
        let n: u64 = mem.len_bytes();
        mem.write(self.ptr + CELL_META_SIZE + offset, data);
        proof {
            lemma_word_at_frame(old(mem)@, final(mem)@, self.header_off());
            lemma_word_at_frame(old(mem)@, final(mem)@, self.footer_off());
        }
    }

    /// Write a little-endian word into the payload at `offset`.
    pub fn _write_word(&self, mem: &mut Memory, offset: u64, wrd: u64)
        requires
            self.wf_in(old(mem)@),
            offset + PTR_SIZE <= self.size,
        ensures
            self.wf_in(final(mem)@),
            final(mem).wf() == old(mem).wf(),
            final(mem).max_pages_spec() == old(mem).max_pages_spec(),
            final(mem)@.len() == old(mem)@.len(),
            forall|i: int|
                0 <= i < old(mem)@.len()
                    && !(self.payload_off() + offset <= i
                        < self.payload_off() + offset + PTR_SIZE)
                    ==> final(mem)@[i] == old(mem)@[i],
            word_at(final(mem)@, self.payload_off() + offset) == wrd,
    {
        let n: u64 = mem.len_bytes();
        mem.write_word(self.ptr + CELL_META_SIZE + offset, wrd);
        proof {
            lemma_word_at_frame(old(mem)@, final(mem)@, self.header_off());
            lemma_word_at_frame(old(mem)@, final(mem)@, self.footer_off());
        }
    }

    /// Read `len` payload bytes starting at `offset`.
    pub fn _read_bytes(&self, mem: &Memory, offset: u64, len: u64) -> (r: Vec<u8>)
        requires
            self.wf_in(mem@),
            offset + len <= self.size,
        ensures
            r@ == self.payload(mem@).subrange(offset as int, offset as int + len as int),
            r@.len() == len,
    {
        let n: u64 = mem.len_bytes();
        let r = mem.read(self.ptr + CELL_META_SIZE + offset, len);
        proof {
            assert(r@ =~= self.payload(mem@).subrange(
                offset as int,
                offset as int + len as int,
            ));
        }
        r
    }

    /// Read the little-endian word stored in the payload at `offset`.
    pub fn _read_word(&self, mem: &Memory, offset: u64) -> (r: u64)
        requires
            self.wf_in(mem@),
            offset + PTR_SIZE <= self.size,
        ensures
            r == word_at(mem@, self.payload_off() + offset),
    {
        let n: u64 = mem.len_bytes();
        mem.read_word(self.ptr + CELL_META_SIZE + offset)
    }

    /// Split this free cell in two free cells, the first of payload size
    /// `size_first`, the second holding the rest, iff the rest can hold a
    /// minimal cell of its own. Otherwise the region is left untouched and
    /// the cell is handed back whole.
    pub fn split(self, mem: &mut Memory, size_first: u64) -> (r: Result<(SSlice, SSlice), SSlice>)
        requires
            self.wf_in(old(mem)@),
            !self.allocated,
            CELL_MIN_SIZE <= size_first < ALLOCATED_BIT,
        ensures
            final(mem).wf() == old(mem).wf(),
            final(mem).max_pages_spec() == old(mem).max_pages_spec(),
            final(mem)@.len() == old(mem)@.len(),
            forall|i: int|
                0 <= i < old(mem)@.len() && !(self.ptr <= i < self.end_off())
                    ==> final(mem)@[i] == old(mem)@[i],
            match r {
                Ok(pair) => {
                    &&& self.size >= size_first + CELL_MIN_SIZE + 2 * CELL_META_SIZE
                    &&& pair.0 == (SSlice { ptr: self.ptr, size: size_first, allocated: false })
                    &&& pair.1 == (SSlice {
                        ptr: (self.ptr + size_first + 2 * CELL_META_SIZE) as u64,
                        size: (self.size - size_first - 2 * CELL_META_SIZE) as u64,
                        allocated: false,
                    })
                    &&& pair.0.wf_in(final(mem)@)
                    &&& pair.1.wf_in(final(mem)@)
                    &&& pair.1.end_off() == self.end_off()
                    &&& pair.0.payload(final(mem)@)
                        == self.payload(old(mem)@).subrange(0, size_first as int)
                },
                Err(c) => {
                    &&& self.size < size_first + CELL_MIN_SIZE + 2 * CELL_META_SIZE
                    &&& c == self
                    &&& final(mem)@ == old(mem)@
                },
            },
    {
        let n: u64 = mem.len_bytes();
        if self.size < size_first + CELL_MIN_SIZE + 2 * CELL_META_SIZE {
            return Err(self);
        }
        let first = SSlice::new(mem, self.ptr, size_first, false);
        let ghost m1: Seq<u8> = mem@;
        let second_ptr: u64 = self.ptr + size_first + 2 * CELL_META_SIZE;
        let second_size: u64 = self.size - size_first - 2 * CELL_META_SIZE;
        let second = SSlice::new(mem, second_ptr, second_size, false);
        proof {
            lemma_wf_frame(first, m1, mem@);
            assert(first.payload(mem@) =~= self.payload(old(mem)@).subrange(
                0,
                size_first as int,
            ));
        }
        Ok((first, second))
    }

    /// Merge this free cell with a physically adjacent free cell into one
    /// free cell spanning both footprints. The merged payload also swallows
    /// the two tag words that used to sit between the cells.
    pub fn merge_with_neighbor(self, mem: &mut Memory, neighbor: SSlice) -> (r: SSlice)
        requires
            self.wf_in(old(mem)@),
            neighbor.wf_in(old(mem)@),
            !self.allocated,
            !neighbor.allocated,
            neighbor.end_off() == self.ptr || self.end_off() == neighbor.ptr,
            old(mem)@.len() <= SIZE_MASK,
        ensures
            final(mem).wf() == old(mem).wf(),
            final(mem).max_pages_spec() == old(mem).max_pages_spec(),
            final(mem)@.len() == old(mem)@.len(),
            r.size == self.size + neighbor.size + 2 * CELL_META_SIZE,
            !r.allocated,
            r.wf_in(final(mem)@),
            r.ptr == (if self.ptr <= neighbor.ptr { self.ptr } else { neighbor.ptr }),
            r.end_off() == (if self.ptr <= neighbor.ptr { neighbor.end_off() } else {
                self.end_off()
            }),
            r.total_spec() == self.total_spec() + neighbor.total_spec(),
            forall|i: int|
                0 <= i < old(mem)@.len() && !(r.ptr <= i < r.end_off())
                    ==> final(mem)@[i] == old(mem)@[i],
    {
        let n: u64 = mem.len_bytes();
        let lo_ptr: u64 = if self.ptr <= neighbor.ptr {
            self.ptr
        } else {
            neighbor.ptr
        };
        let merged_size: u64 = self.size + neighbor.size + 2 * CELL_META_SIZE;
        SSlice::new(mem, lo_ptr, merged_size, false)
    }

    /// Discover the cell physically before (`Side::Start`) or after
    /// (`Side::End`) this one, if the boundary tags there parse as a sound
    /// cell. A failed parse signals the edge of the region.
    pub fn get_neighbor(&self, mem: &Memory, side: Side) -> (r: Option<SSlice>)
        requires
            self.wf_in(mem@),
        ensures
            side == Side::Start ==> r == spec_parse_cell_end(mem@, self.ptr),
            side == Side::End ==> r == spec_parse_cell(
                mem@,
                (self.ptr + self.size + 2 * CELL_META_SIZE) as u64,
            ),
            r matches Some(c) ==> c.wf_in(mem@),
    {
        let n: u64 = mem.len_bytes();
        match side {
            Side::Start => SSlice::from_ptr(mem, self.ptr, Side::End),
            Side::End => SSlice::from_ptr(
                mem,
                self.ptr + self.size + 2 * CELL_META_SIZE,
                Side::Start,
            ),
        }
    }

    /// Store the free-list predecessor pointer in the first payload word.
    pub fn set_prev_free_ptr(&self, mem: &mut Memory, prev_ptr: u64)
        requires
            self.wf_in(old(mem)@),
            !self.allocated,
        ensures
            self.wf_in(final(mem)@),
            final(mem).wf() == old(mem).wf(),
            final(mem).max_pages_spec() == old(mem).max_pages_spec(),
            final(mem)@.len() == old(mem)@.len(),
            forall|i: int|
                0 <= i < old(mem)@.len()
                    && !(self.payload_off() <= i < self.payload_off() + PTR_SIZE)
                    ==> final(mem)@[i] == old(mem)@[i],
            self.prev_free(final(mem)@) == prev_ptr,
    {
        self._write_word(mem, 0, prev_ptr);
    }

    /// The free-list predecessor pointer stored in the first payload word.
    pub fn get_prev_free_ptr(&self, mem: &Memory) -> (r: u64)
        requires
            self.wf_in(mem@),
            !self.allocated,
        ensures
            r == self.prev_free(mem@),
    {
        self._read_word(mem, 0)
    }

    /// Store the free-list successor pointer in the second payload word.
    pub fn set_next_free_ptr(&self, mem: &mut Memory, next_ptr: u64)
        requires
            self.wf_in(old(mem)@),
            !self.allocated,
        ensures
            self.wf_in(final(mem)@),
            final(mem).wf() == old(mem).wf(),
            final(mem).max_pages_spec() == old(mem).max_pages_spec(),
            final(mem)@.len() == old(mem)@.len(),
            forall|i: int|
                0 <= i < old(mem)@.len()
                    && !(self.payload_off() + PTR_SIZE <= i
                        < self.payload_off() + 2 * PTR_SIZE)
                    ==> final(mem)@[i] == old(mem)@[i],
            self.next_free(final(mem)@) == next_ptr,
    {
        self._write_word(mem, PTR_SIZE, next_ptr);
    }

    /// The free-list successor pointer stored in the second payload word.
    pub fn get_next_free_ptr(&self, mem: &Memory) -> (r: u64)
        requires
            self.wf_in(mem@),
            !self.allocated,
        ensures
            r == self.next_free(mem@),
    {
        self._read_word(mem, PTR_SIZE)
    }
}

/// Header and footer of any cell that pointer-walking discovers agree:
/// both parsers accept a cell only after reading the same word at both of
/// its edges. Together with [`SSlice::wf_in`], which pins both tags to one
/// encoding, every reachable cell carries matching boundary tags.
pub proof fn lemma_walked_cell_tags_agree(m: Seq<u8>, ptr: u64)
    ensures
        spec_parse_cell(m, ptr) matches Some(c)
            ==> word_at(m, c.header_off()) == word_at(m, c.footer_off()),
        spec_parse_cell_end(m, ptr) matches Some(c)
            ==> word_at(m, c.header_off()) == word_at(m, c.footer_off()),
{
}

/// The region `m` is tiled by cells from `ptr` up to its very end: either
/// `ptr` is the end, or a sound cell starts exactly at `ptr` and the
/// tiling resumes exactly one past that cell's footer. Where this holds,
/// the walked cells cover `ptr .. m.len()` without gaps or overlaps, so
/// their footprints sum to exactly `m.len() - ptr`.
pub open spec fn spec_tiled_from(m: Seq<u8>, ptr: int) -> bool
    decreases m.len() - ptr,
{
    if ptr == m.len() {
        true
    } else if 0 <= ptr < m.len() && m.len() <= SIZE_MASK {
        match spec_parse_cell(m, ptr as u64) {
            Some(c) => spec_tiled_from(m, c.end_off()),
            None => false,
        }
    } else {
        false
    }
}

/// The cells discovered by walking the boundary tags from `ptr`: the cell
/// parsed there, then the walk from one past its footer. The walk stops at
/// the first offset where no sound cell starts.
pub open spec fn spec_walk(m: Seq<u8>, ptr: int) -> Seq<SSlice>
    decreases m.len() - ptr,
{
    if 0 <= ptr < m.len() && m.len() <= SIZE_MASK {
        match spec_parse_cell(m, ptr as u64) {
            Some(c) => seq![c] + spec_walk(m, c.end_off()),
            None => Seq::empty(),
        }
    } else {
        Seq::empty()
    }
}

/// The summed byte footprint of a run of cells.
pub open spec fn spec_sum_totals(cells: Seq<SSlice>) -> int
    decreases cells.len(),
{
    if cells.len() == 0 {
        0
    } else {
        cells[0].total_spec() + spec_sum_totals(cells.drop_first())
    }
}

/// Every cell of a walk is well-formed — in particular its header and
/// footer tags agree — and each one begins exactly where its predecessor
/// ended: walked cells never overlap and leave no gap between them.
pub proof fn lemma_walk_cells_sound(m: Seq<u8>, ptr: int)
    ensures
        forall|i: int|
            0 <= i < spec_walk(m, ptr).len()
                ==> (#[trigger] spec_walk(m, ptr)[i]).wf_in(m),
        spec_walk(m, ptr).len() > 0 ==> spec_walk(m, ptr)[0].ptr == ptr,
        forall|i: int|
            0 < i < spec_walk(m, ptr).len()
                ==> (#[trigger] spec_walk(m, ptr)[i]).ptr == spec_walk(m, ptr)[i - 1].end_off(),
    decreases m.len() - ptr,
{
    if 0 <= ptr < m.len() && m.len() <= SIZE_MASK {
        match spec_parse_cell(m, ptr as u64) {
            Some(c) => {
                lemma_parse_cell_sound(m, ptr as u64);
                lemma_walk_cells_sound(m, c.end_off());
                let rest = spec_walk(m, c.end_off());
                assert(spec_walk(m, ptr) == seq![c] + rest);
                assert forall|i: int| 0 <= i < spec_walk(m, ptr).len()
                    implies (#[trigger] spec_walk(m, ptr)[i]).wf_in(m)
                by {
                    if i > 0 {
                        assert(spec_walk(m, ptr)[i] == rest[i - 1]);
                    }
                }
                assert forall|i: int| 0 < i < spec_walk(m, ptr).len()
                    implies (#[trigger] spec_walk(m, ptr)[i]).ptr
                        == spec_walk(m, ptr)[i - 1].end_off()
                by {
                    assert(spec_walk(m, ptr)[i] == rest[i - 1]);
                    if i == 1 {
                        assert(rest.len() > 0 && rest[0].ptr == c.end_off());
                    } else {
                        assert(spec_walk(m, ptr)[i - 1] == rest[i - 2]);
                    }
                }
            },
            None => {},
        }
    }
}

/// A tiled region is covered exactly: the footprints of the cells walked
/// from `ptr` sum to every byte from there to the end of the region.
pub proof fn lemma_tiled_walk_sum(m: Seq<u8>, ptr: int)
    requires
        spec_tiled_from(m, ptr),
        0 <= ptr <= m.len(),
    ensures
        spec_sum_totals(spec_walk(m, ptr)) == m.len() - ptr,
    decreases m.len() - ptr,
{
    if ptr == m.len() {
        assert(spec_walk(m, ptr) == Seq::<SSlice>::empty());
    } else {
        match spec_parse_cell(m, ptr as u64) {
            Some(c) => {
                lemma_parse_cell_sound(m, ptr as u64);
                lemma_tiled_walk_sum(m, c.end_off());
                let rest = spec_walk(m, c.end_off());
                assert(spec_walk(m, ptr) == seq![c] + rest);
                assert((seq![c] + rest).drop_first() =~= rest);
                assert(spec_sum_totals(spec_walk(m, ptr))
                    == c.total_spec() + spec_sum_totals(rest));
            },
            None => {
                assert(false);
            },
        }
    }
}

} // verus!
