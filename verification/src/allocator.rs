//! The allocator: a segregated-free-list engine whose entire state is
//! persisted inside the backing store it manages.
//!
//! The root object is a header cell at a caller-supplied offset holding, in
//! its payload: four magic bytes, one free-list head pointer per size class,
//! the allocated/free byte counters, the free-buffer target, the one-shot
//! low-memory flag, the hard growth cap, and four opaque user pointers. The
//! rest of the region is tiled by cells; free ones are threaded through
//! doubly-linked lists, one per power-of-two size class.

use vstd::prelude::*;
use vstd::arithmetic::power2::pow2;
use crate::mem_context::{Memory, OutOfMemory, word_at, lemma_word_at_frame};
use crate::s_slice::{
    SSlice, Side, spec_parse_cell, spec_parse_cell_end, spec_tiled_from,
    lemma_parse_cell_complete, lemma_parse_cell_sound, lemma_wf_frame,
    lemma_word_at_frame_grow,
};
use crate::{
    ALLOCATED_BIT, CELL_META_SIZE, CELL_MIN_SIZE, CUSTOM_DATA_PTRS_COUNT,
    DEFAULT_MAX_ALLOCATION_PAGES, DEFAULT_MAX_GROW_PAGES, EMPTY_PTR, PAGE_SIZE_BYTES, PTR_SIZE,
    SEG_CLASS_PTRS_COUNT, SIZE_MASK,
};

verus! {

/// Offset of the magic bytes within the header payload.
pub const OFF_MAGIC: u64 = 0;

/// Offset of the size-class head table within the header payload.
pub const OFF_HEADS: u64 = 4;

/// Offset of the allocated-bytes counter within the header payload.
pub const OFF_ALLOCATED: u64 = OFF_HEADS + SEG_CLASS_PTRS_COUNT * PTR_SIZE;

/// Offset of the free-bytes counter within the header payload.
pub const OFF_FREE: u64 = OFF_ALLOCATED + PTR_SIZE;

/// Offset of the free-buffer target (in pages) within the header payload.
pub const OFF_MAX_ALLOC_PAGES: u64 = OFF_FREE + PTR_SIZE;

/// Offset of the one-byte low-memory flag within the header payload.
pub const OFF_ON_LOW: u64 = OFF_MAX_ALLOC_PAGES + PTR_SIZE;

/// Offset of the hard growth cap (in pages) within the header payload.
pub const OFF_MAX_GROW_PAGES: u64 = OFF_ON_LOW + 1;

/// Offset of the opaque user-pointer table within the header payload.
pub const OFF_CUSTOM: u64 = OFF_MAX_GROW_PAGES + PTR_SIZE;

/// Payload size of the allocator's own header cell.
pub const ALLOCATOR_SIZE: u64 = OFF_CUSTOM + CUSTOM_DATA_PTRS_COUNT * PTR_SIZE;

/// Why an allocator operation could not complete.
#[derive(Debug, Clone, Copy, PartialEq, Eq, Structural)]
pub enum AllocError {
    /// Every size class was exhausted and the region cannot grow further.
    OutOfMemory,
    /// Persisted metadata failed a soundness check: a boundary tag, a
    /// free-list link or a counter does not describe a sound cell layout.
    InvariantViolation,
}

/// Floor of the base-two logarithm of `n`, for `n >= 1`.
pub open spec fn spec_log2_floor(n: nat) -> nat
    decreases n,
{
    if n <= 1 {
        0
    } else {
        1 + spec_log2_floor(n / 2)
    }
}

/// `2^log2_floor(n) <= n < 2^(log2_floor(n) + 1)`.
pub proof fn lemma_log2_floor_bounds(n: nat)
    requires
        n >= 1,
    ensures
        pow2(spec_log2_floor(n)) <= n < pow2(spec_log2_floor(n) + 1),
    decreases n,
{
    vstd::arithmetic::power2::lemma_pow2_unfold((spec_log2_floor(n) + 1) as nat);
    if n <= 1 {
        vstd::arithmetic::power2::lemma2_to64();
    } else {
        lemma_log2_floor_bounds(n / 2);
        vstd::arithmetic::power2::lemma_pow2_unfold((spec_log2_floor(n / 2) + 1) as nat);
    }
}

/// The size class a free cell of payload size `size` belongs to:
/// `max(0, ceil(log2(size)) - 4)`.
pub open spec fn spec_seg_class_id(size: u64) -> int {
    let lf = spec_log2_floor(size as nat);
    let lc: int = if pow2(lf) == size {
        lf as int
    } else {
        lf as int + 1
    };
    if lc > 3 {
        lc - 4
    } else {
        0
    }
}

/// Compute the size class of a payload size: the ceiling of its base-two
/// logarithm, shifted down by four, floored at class zero.
pub fn get_seg_class_id(size: u64) -> (r: u32)
    requires
        1 <= size < ALLOCATED_BIT,
    ensures
        r == spec_seg_class_id(size),
        r < SEG_CLASS_PTRS_COUNT,
{
    let mut v: u64 = size;
    let mut l: u32 = 0;
    let mut p: u64 = 1;
    proof {
        vstd::arithmetic::power2::lemma2_to64();
    }
    while v > 1
        invariant
            1 <= v <= size < ALLOCATED_BIT,
            p == pow2(l as nat),
            p <= size,
            spec_log2_floor(size as nat) == l + spec_log2_floor(v as nat),
            l <= 62,
        decreases v,
    {
        proof {
            assert(spec_log2_floor(v as nat) == 1 + spec_log2_floor((v / 2) as nat));
            vstd::arithmetic::power2::lemma_pow2_unfold((l + 1) as nat);
            let lf: nat = spec_log2_floor(size as nat);
            let lr: nat = spec_log2_floor((v / 2) as nat);
            assert(lf == l + 1 + lr);
            vstd::arithmetic::power2::lemma_pow2_adds((l + 1) as nat, lr);
            vstd::arithmetic::power2::lemma_pow2_pos(lr);
            let a: nat = pow2((l + 1) as nat);
            let b: nat = pow2(lr);
            assert(a * b >= a) by (nonlinear_arith)
                requires
                    b >= 1,
            ;
            lemma_log2_floor_bounds(size as nat);
            assert(pow2(lf) <= size);
            assert(pow2((l + 1) as nat) <= size);
            vstd::arithmetic::power2::lemma2_to64_rest();
            if l + 1 > 62 {
                assert(pow2(63) == 0x8000000000000000);
                assert(false);
            }
        }
        v = v / 2;
        l = l + 1;
        p = p * 2;
    }
    proof {
        assert(spec_log2_floor(v as nat) == 0);
        assert(l == spec_log2_floor(size as nat));
        lemma_log2_floor_bounds(size as nat);
    }
    let lc: u32 = if p < size {
        l + 1
    } else {
        l
    };
    proof {
        assert(p <= size);
        assert(p == size <==> pow2(spec_log2_floor(size as nat)) == size);
    }
    if lc > 3 {
        lc - 4
    } else {
        0
    }
}

/// Every representable payload size falls in one of the size classes.
pub proof fn lemma_seg_class_id_bound(size: u64)
    requires
        1 <= size < ALLOCATED_BIT,
    ensures
        0 <= spec_seg_class_id(size) < SEG_CLASS_PTRS_COUNT,
{
    lemma_log2_floor_bounds(size as nat);
    vstd::arithmetic::power2::lemma2_to64();
    vstd::arithmetic::power2::lemma2_to64_rest();
    let lf: nat = spec_log2_floor(size as nat);
    if lf > 62 {
        if lf > 63 {
            vstd::arithmetic::power2::lemma_pow2_strictly_increases(63, lf);
        }
        assert(pow2(63) == 0x8000000000000000);
        assert(false);
    }
}

/// The size class is monotone in the payload size: a larger payload never
/// lands in a smaller class.
pub proof fn lemma_seg_class_monotone(s1: u64, s2: u64)
    requires
        1 <= s1 <= s2,
        s2 < ALLOCATED_BIT,
    ensures
        spec_seg_class_id(s1) <= spec_seg_class_id(s2),
{
    lemma_log2_floor_bounds(s1 as nat);
    lemma_log2_floor_bounds(s2 as nat);
    let lf1: nat = spec_log2_floor(s1 as nat);
    let lf2: nat = spec_log2_floor(s2 as nat);
    let lc1: int = if pow2(lf1) == s1 {
        lf1 as int
    } else {
        lf1 as int + 1
    };
    let lc2: int = if pow2(lf2) == s2 {
        lf2 as int
    } else {
        lf2 as int + 1
    };
    vstd::arithmetic::power2::lemma_pow2_unfold((lf1 + 1) as nat);
    vstd::arithmetic::power2::lemma2_to64();
    assert(pow2(lc2 as nat) >= s2);
    if lc1 > lc2 {
        // the class below lc1 cannot hold s1, yet lc2 would have to
        if lc1 as nat == lf1 {
            assert(lf1 >= 1);
            vstd::arithmetic::power2::lemma_pow2_unfold(lf1);
            assert(pow2((lc1 - 1) as nat) < s1);
        } else {
            assert(pow2((lc1 - 1) as nat) <= s1 && pow2((lc1 - 1) as nat) != s1);
        }
        if lc2 < lc1 - 1 {
            vstd::arithmetic::power2::lemma_pow2_strictly_increases(
                lc2 as nat,
                (lc1 - 1) as nat,
            );
        }
        assert(pow2(lc2 as nat) <= pow2((lc1 - 1) as nat));
        assert(false);
    }
}

/// A handle on an allocator persisted in some backing store. All durable
/// state lives in the store itself; the handle only remembers where its
/// header cell sits. Operations that may need to grow the region take a
/// `hook_pending` outbox flag, raised when the low-memory protocol fires so
/// that the host can schedule the notification.
pub struct StableMemoryAllocator {
    /// The allocator's own header cell.
    pub slice: SSlice,
}

impl StableMemoryAllocator {
    /// Offset of the header payload: all persisted fields are relative to
    /// this.
    pub open spec fn base(self) -> int {
        self.slice.payload_off()
    }

    /// First offset past the header cell: the start of the tiled data
    /// region.
    pub open spec fn data_start(self) -> int {
        self.slice.end_off()
    }

    /// The handle mirrors region `m`: its header cell is well-formed, marked
    /// allocated, and of the fixed header size.
    pub open spec fn wf_in(self, m: Seq<u8>) -> bool {
        &&& self.slice.wf_in(m)
        &&& self.slice.size == ALLOCATOR_SIZE
        &&& self.slice.allocated
    }

    /// Offset of the head pointer of size class `id`.
    pub open spec fn head_off(self, id: int) -> int {
        self.base() + OFF_HEADS + id * PTR_SIZE
    }

    /// The persisted head pointer of size class `id`.
    pub open spec fn seg_class_head(self, m: Seq<u8>, id: int) -> u64 {
        word_at(m, self.head_off(id))
    }

    /// The persisted allocated-bytes counter.
    pub open spec fn allocated_size(self, m: Seq<u8>) -> u64 {
        word_at(m, self.base() + OFF_ALLOCATED)
    }

    /// The persisted free-bytes counter.
    pub open spec fn free_size(self, m: Seq<u8>) -> u64 {
        word_at(m, self.base() + OFF_FREE)
    }

    /// The persisted free-buffer target, in pages.
    pub open spec fn max_allocation_pages(self, m: Seq<u8>) -> u64 {
        word_at(m, self.base() + OFF_MAX_ALLOC_PAGES)
    }

    /// The persisted one-shot low-memory flag.
    pub open spec fn on_low_flag(self, m: Seq<u8>) -> bool {
        m[self.base() + OFF_ON_LOW] == 1u8
    }

    /// The persisted hard growth cap, in pages; zero means unlimited.
    pub open spec fn max_grow_pages(self, m: Seq<u8>) -> u64 {
        word_at(m, self.base() + OFF_MAX_GROW_PAGES)
    }

    /// The persisted opaque user pointer at index `idx`.
    pub open spec fn custom_ptr(self, m: Seq<u8>, idx: int) -> u64 {
        word_at(m, self.base() + OFF_CUSTOM + idx * PTR_SIZE)
    }

    /// The magic bytes `"SMAM"` stand at the start of the header payload.
    pub open spec fn magic_ok(self, m: Seq<u8>) -> bool {
        &&& m[self.base() + 0] == 83u8
        &&& m[self.base() + 1] == 77u8
        &&& m[self.base() + 2] == 65u8
        &&& m[self.base() + 3] == 77u8
    }
}

/// The central frame argument: when two equally long regions differ only
/// inside the window `lo .. hi` and at or above the data region, every
/// header field whose bytes the window misses is unchanged — and the header
/// cell itself still parses as before.
pub proof fn lemma_header_frame(
    a: StableMemoryAllocator,
    m1: Seq<u8>,
    m2: Seq<u8>,
    lo: int,
    hi: int,
)
    requires
        a.wf_in(m1),
        m1.len() == m2.len(),
        forall|i: int|
            0 <= i < m1.len() && i < a.data_start() && !(lo <= i < hi) ==> m2[i] == m1[i],
        a.base() <= lo,
        hi <= a.base() + ALLOCATOR_SIZE,
    ensures
        a.wf_in(m2),
        (hi <= a.base() || lo >= a.base() + 4) ==> a.magic_ok(m2) == a.magic_ok(m1),
        forall|id: int|
            0 <= id < SEG_CLASS_PTRS_COUNT
                && (hi <= a.head_off(id) || lo >= a.head_off(id) + PTR_SIZE)
                ==> a.seg_class_head(m2, id) == a.seg_class_head(m1, id),
        (hi <= a.base() + OFF_ALLOCATED || lo >= a.base() + OFF_ALLOCATED + PTR_SIZE)
            ==> a.allocated_size(m2) == a.allocated_size(m1),
        (hi <= a.base() + OFF_FREE || lo >= a.base() + OFF_FREE + PTR_SIZE)
            ==> a.free_size(m2) == a.free_size(m1),
        (hi <= a.base() + OFF_MAX_ALLOC_PAGES || lo >= a.base() + OFF_MAX_ALLOC_PAGES + PTR_SIZE)
            ==> a.max_allocation_pages(m2) == a.max_allocation_pages(m1),
        (hi <= a.base() + OFF_ON_LOW || lo >= a.base() + OFF_ON_LOW + 1)
            ==> a.on_low_flag(m2) == a.on_low_flag(m1),
        (hi <= a.base() + OFF_MAX_GROW_PAGES || lo >= a.base() + OFF_MAX_GROW_PAGES + PTR_SIZE)
            ==> a.max_grow_pages(m2) == a.max_grow_pages(m1),
        forall|idx: int|
            0 <= idx < CUSTOM_DATA_PTRS_COUNT
                && (hi <= a.base() + OFF_CUSTOM + idx * PTR_SIZE
                    || lo >= a.base() + OFF_CUSTOM + idx * PTR_SIZE + PTR_SIZE)
                ==> a.custom_ptr(m2, idx) == a.custom_ptr(m1, idx),
{
    assert forall|i: int| a.slice.ptr <= i < a.slice.ptr + CELL_META_SIZE implies m2[i] == m1[i]
    by {}
    lemma_word_at_frame(m1, m2, a.slice.header_off());
    lemma_word_at_frame(m1, m2, a.slice.footer_off());
    assert forall|id: int|
        0 <= id < SEG_CLASS_PTRS_COUNT
            && (hi <= a.head_off(id) || lo >= a.head_off(id) + PTR_SIZE)
        implies a.seg_class_head(m2, id) == a.seg_class_head(m1, id)
    by {
        lemma_word_at_frame(m1, m2, a.head_off(id));
    }
    if hi <= a.base() + OFF_ALLOCATED || lo >= a.base() + OFF_ALLOCATED + PTR_SIZE {
        lemma_word_at_frame(m1, m2, a.base() + OFF_ALLOCATED);
    }
    if hi <= a.base() + OFF_FREE || lo >= a.base() + OFF_FREE + PTR_SIZE {
        lemma_word_at_frame(m1, m2, a.base() + OFF_FREE);
    }
    if hi <= a.base() + OFF_MAX_ALLOC_PAGES || lo >= a.base() + OFF_MAX_ALLOC_PAGES + PTR_SIZE {
        lemma_word_at_frame(m1, m2, a.base() + OFF_MAX_ALLOC_PAGES);
    }
    if hi <= a.base() + OFF_MAX_GROW_PAGES || lo >= a.base() + OFF_MAX_GROW_PAGES + PTR_SIZE {
        lemma_word_at_frame(m1, m2, a.base() + OFF_MAX_GROW_PAGES);
    }
    assert forall|idx: int|
        0 <= idx < CUSTOM_DATA_PTRS_COUNT
            && (hi <= a.base() + OFF_CUSTOM + idx * PTR_SIZE
                || lo >= a.base() + OFF_CUSTOM + idx * PTR_SIZE + PTR_SIZE)
        implies a.custom_ptr(m2, idx) == a.custom_ptr(m1, idx)
    by {
        lemma_word_at_frame(m1, m2, a.base() + OFF_CUSTOM + idx * PTR_SIZE);
    }
}

impl StableMemoryAllocator {
    /// The persisted allocated-bytes counter: the sum of the footprints of
    /// all allocated cells handed out and not yet returned.
    pub fn get_allocated_size(&self, mem: &Memory) -> (r: u64)
        requires
            self.wf_in(mem@),
        ensures
            r == self.allocated_size(mem@),
    {
        self.slice._read_word(mem, OFF_ALLOCATED)
    }

    /// Overwrite the allocated-bytes counter.
    pub(crate) fn set_allocated_size(&self, mem: &mut Memory, v: u64)
        requires
            self.wf_in(old(mem)@),
        ensures
            self.wf_in(final(mem)@),
            final(mem).wf() == old(mem).wf(),
            final(mem).max_pages_spec() == old(mem).max_pages_spec(),
            final(mem)@.len() == old(mem)@.len(),
            self.allocated_size(final(mem)@) == v,
            forall|i: int|
                0 <= i < old(mem)@.len()
                    && !(self.base() + OFF_ALLOCATED <= i < self.base() + OFF_ALLOCATED + PTR_SIZE)
                    ==> final(mem)@[i] == old(mem)@[i],
    {
        self.slice._write_word(mem, OFF_ALLOCATED, v);
    }

    /// The persisted free-bytes counter: the sum of the footprints of all
    /// cells currently threaded in the free lists.
    pub fn get_free_size(&self, mem: &Memory) -> (r: u64)
        requires
            self.wf_in(mem@),
        ensures
            r == self.free_size(mem@),
    {
        self.slice._read_word(mem, OFF_FREE)
    }

    /// Overwrite the free-bytes counter.
    pub(crate) fn set_free_size(&self, mem: &mut Memory, v: u64)
        requires
            self.wf_in(old(mem)@),
        ensures
            self.wf_in(final(mem)@),
            final(mem).wf() == old(mem).wf(),
            final(mem).max_pages_spec() == old(mem).max_pages_spec(),
            final(mem)@.len() == old(mem)@.len(),
            self.free_size(final(mem)@) == v,
            forall|i: int|
                0 <= i < old(mem)@.len()
                    && !(self.base() + OFF_FREE <= i < self.base() + OFF_FREE + PTR_SIZE)
                    ==> final(mem)@[i] == old(mem)@[i],
    {
        self.slice._write_word(mem, OFF_FREE, v);
    }

    /// The free-buffer target: how many pages' worth of free bytes the
    /// allocator keeps in reserve around every allocation.
    pub fn get_max_allocation_pages(&self, mem: &Memory) -> (r: u64)
        requires
            self.wf_in(mem@),
        ensures
            r == self.max_allocation_pages(mem@),
    {
        self.slice._read_word(mem, OFF_MAX_ALLOC_PAGES)
    }

    /// Set the free-buffer target, in pages.
    pub fn set_max_allocation_pages(&self, mem: &mut Memory, pages: u64)
        requires
            self.wf_in(old(mem)@),
        ensures
            self.wf_in(final(mem)@),
            final(mem).wf() == old(mem).wf(),
            final(mem).max_pages_spec() == old(mem).max_pages_spec(),
            final(mem)@.len() == old(mem)@.len(),
            self.max_allocation_pages(final(mem)@) == pages,
            forall|i: int|
                0 <= i < old(mem)@.len()
                    && !(self.base() + OFF_MAX_ALLOC_PAGES <= i
                        < self.base() + OFF_MAX_ALLOC_PAGES + PTR_SIZE)
                    ==> final(mem)@[i] == old(mem)@[i],
    {
        self.slice._write_word(mem, OFF_MAX_ALLOC_PAGES, pages);
    }

    /// Whether the one-shot low-memory notification has already fired.
    pub fn get_on_low_executed_flag(&self, mem: &Memory) -> (r: bool)
        requires
            self.wf_in(mem@),
        ensures
            r == self.on_low_flag(mem@),
    {
        let buf: Vec<u8> = self.slice._read_bytes(mem, OFF_ON_LOW, 1);
        buf[0] == 1
    }

    /// Set or clear the one-shot low-memory flag.
    pub fn set_on_low_executed_flag(&self, mem: &mut Memory, flag: bool)
        requires
            self.wf_in(old(mem)@),
        ensures
            self.wf_in(final(mem)@),
            final(mem).wf() == old(mem).wf(),
            final(mem).max_pages_spec() == old(mem).max_pages_spec(),
            final(mem)@.len() == old(mem)@.len(),
            self.on_low_flag(final(mem)@) == flag,
            forall|i: int|
                0 <= i < old(mem)@.len() && i != self.base() + OFF_ON_LOW
                    ==> final(mem)@[i] == old(mem)@[i],
    {
        let mut buf: Vec<u8> = Vec::new();
        if flag {
            buf.push(1u8);
        } else {
            buf.push(0u8);
        }
        self.slice._write_bytes(mem, OFF_ON_LOW, buf.as_slice());
        proof {
            assert(final(mem)@[self.base() + OFF_ON_LOW] == buf@[0]);
        }
    }

    /// The hard cap on total pages; zero means unlimited.
    pub fn get_max_grow_pages(&self, mem: &Memory) -> (r: u64)
        requires
            self.wf_in(mem@),
        ensures
            r == self.max_grow_pages(mem@),
    {
        self.slice._read_word(mem, OFF_MAX_GROW_PAGES)
    }

    /// Set the hard cap on total pages; zero means unlimited.
    pub fn set_max_grow_pages(&self, mem: &mut Memory, max_pages: u64)
        requires
            self.wf_in(old(mem)@),
        ensures
            self.wf_in(final(mem)@),
            final(mem).wf() == old(mem).wf(),
            final(mem).max_pages_spec() == old(mem).max_pages_spec(),
            final(mem)@.len() == old(mem)@.len(),
            self.max_grow_pages(final(mem)@) == max_pages,
            forall|i: int|
                0 <= i < old(mem)@.len()
                    && !(self.base() + OFF_MAX_GROW_PAGES <= i
                        < self.base() + OFF_MAX_GROW_PAGES + PTR_SIZE)
                    ==> final(mem)@[i] == old(mem)@[i],
    {
        self.slice._write_word(mem, OFF_MAX_GROW_PAGES, max_pages);
    }

    /// Store an opaque user pointer, e.g. the root of a structure built on
    /// top of the allocator. `idx` must be below
    /// [`crate::CUSTOM_DATA_PTRS_COUNT`].
    pub fn set_custom_data_ptr(&self, mem: &mut Memory, idx: u64, ptr: u64)
        requires
            self.wf_in(old(mem)@),
            idx < CUSTOM_DATA_PTRS_COUNT,
        ensures
            self.wf_in(final(mem)@),
            final(mem).wf() == old(mem).wf(),
            final(mem).max_pages_spec() == old(mem).max_pages_spec(),
            final(mem)@.len() == old(mem)@.len(),
            self.custom_ptr(final(mem)@, idx as int) == ptr,
            forall|i: int|
                0 <= i < old(mem)@.len()
                    && !(self.base() + OFF_CUSTOM + idx * PTR_SIZE <= i
                        < self.base() + OFF_CUSTOM + idx * PTR_SIZE + PTR_SIZE)
                    ==> final(mem)@[i] == old(mem)@[i],
    {
        self.slice._write_word(mem, OFF_CUSTOM + idx * PTR_SIZE, ptr);
    }

    /// Read back an opaque user pointer.
    pub fn get_custom_data_ptr(&self, mem: &Memory, idx: u64) -> (r: u64)
        requires
            self.wf_in(mem@),
            idx < CUSTOM_DATA_PTRS_COUNT,
        ensures
            r == self.custom_ptr(mem@, idx as int),
    {
        self.slice._read_word(mem, OFF_CUSTOM + idx * PTR_SIZE)
    }

    /// Offset, within the header payload, of the head pointer of size class
    /// `seg_class_id`.
    pub fn get_seg_class_head_offset(seg_class_id: u32) -> (r: u64)
        requires
            seg_class_id < SEG_CLASS_PTRS_COUNT,
        ensures
            r == OFF_HEADS + seg_class_id * PTR_SIZE,
    {
        OFF_HEADS + (seg_class_id as u64) * PTR_SIZE
    }

    /// Overwrite the head pointer of a size class.
    pub(crate) fn set_seg_class_head(&self, mem: &mut Memory, id: u32, head_ptr: u64)
        requires
            self.wf_in(old(mem)@),
            id < SEG_CLASS_PTRS_COUNT,
        ensures
            self.wf_in(final(mem)@),
            final(mem).wf() == old(mem).wf(),
            final(mem).max_pages_spec() == old(mem).max_pages_spec(),
            final(mem)@.len() == old(mem)@.len(),
            self.seg_class_head(final(mem)@, id as int) == head_ptr,
            forall|i: int|
                0 <= i < old(mem)@.len()
                    && !(self.head_off(id as int) <= i < self.head_off(id as int) + PTR_SIZE)
                    ==> final(mem)@[i] == old(mem)@[i],
    {
        self.slice._write_word(mem, Self::get_seg_class_head_offset(id), head_ptr);
    }
}

impl StableMemoryAllocator {
    /// The user-settable configuration persisted in the header: the magic
    /// bytes, the free-buffer target, the growth cap and the opaque user
    /// pointers are the same in both regions.
    pub open spec fn config_preserved(self, m1: Seq<u8>, m2: Seq<u8>) -> bool {
        &&& self.magic_ok(m2) == self.magic_ok(m1)
        &&& self.max_allocation_pages(m2) == self.max_allocation_pages(m1)
        &&& self.max_grow_pages(m2) == self.max_grow_pages(m1)
        &&& forall|idx: int|
            0 <= idx < CUSTOM_DATA_PTRS_COUNT ==> self.custom_ptr(m2, idx) == self.custom_ptr(
                m1,
                idx,
            )
    }

    /// The conditions under which unthreading cell `c` from its class list
    /// cannot fail: the free counter can take the debit, and every cell its
    /// links lead to is a sound free cell of the data region, disjoint
    /// from `c` and from each other.
    pub open spec fn spec_eject_sound(self, m: Seq<u8>, c: SSlice) -> bool {
        &&& self.free_size(m) >= c.total_spec()
        &&& (match self.spec_load_free(m, c.next_free(m)) {
            Some(n) => n.end_off() <= c.ptr || c.end_off() <= n.ptr,
            None => true,
        })
        &&& (c.prev_free(m) == self.slice.ptr || (match self.spec_load_free(m, c.prev_free(m)) {
            Some(p) => {
                &&& (p.end_off() <= c.ptr || c.end_off() <= p.ptr)
                &&& (match self.spec_load_free(m, c.next_free(m)) {
                    Some(n) => p.end_off() <= n.ptr || n.end_off() <= p.ptr,
                    None => true,
                })
            },
            None => false,
        }))
    }

    /// The checked cell load used by the free-list engine: the bytes at
    /// `ptr` must parse as a sound cell that is free and lies wholly inside
    /// the data region (so that no write through it can reach the header).
    pub open spec fn spec_load_free(self, m: Seq<u8>, ptr: u64) -> Option<SSlice> {
        match spec_parse_cell(m, ptr) {
            Some(c) => if !c.allocated && c.ptr >= self.data_start() {
                Some(c)
            } else {
                None
            },
            None => None,
        }
    }

    /// The head cell of size class `id` parses as a sound free cell of the
    /// data region and can hold a payload of `size` bytes.
    pub open spec fn head_fits(self, m: Seq<u8>, id: int, size: u64) -> bool {
        match self.spec_load_free(m, self.seg_class_head(m, id)) {
            Some(c) => c.size >= size,
            None => false,
        }
    }

    /// Somewhere within the first `fuel` cells of the free list starting at
    /// `ptr` stands a cell whose payload can hold `size` bytes. The list is
    /// followed through the in-band forward links; an unsound link ends it.
    pub open spec fn spec_list_has_fit(self, m: Seq<u8>, ptr: u64, size: u64, fuel: nat) -> bool
        decreases fuel,
    {
        if fuel == 0 {
            false
        } else {
            match self.spec_load_free(m, ptr) {
                Some(c) => c.size >= size || self.spec_list_has_fit(
                    m,
                    c.next_free(m),
                    size,
                    (fuel - 1) as nat,
                ),
                None => false,
            }
        }
    }

    /// Some size class above the one of `size` is headed by a free cell
    /// large enough for it: the allocation hunt's second stage, which only
    /// inspects heads, is then guaranteed a candidate.
    pub open spec fn some_head_fits(self, m: Seq<u8>, size: u64) -> bool {
        exists|id: int|
            spec_seg_class_id(size) < id < SEG_CLASS_PTRS_COUNT
                && #[trigger] self.head_fits(m, id, size)
    }

    /// A free physical neighbor on the low side is available to coalesce
    /// with.
    pub open spec fn mergeable_start(self, m: Seq<u8>, c: SSlice) -> bool {
        match spec_parse_cell_end(m, c.ptr) {
            Some(n) => !n.allocated && n.ptr >= self.data_start(),
            None => false,
        }
    }

    /// A free physical neighbor on the high side is available to coalesce
    /// with.
    pub open spec fn mergeable_end(self, m: Seq<u8>, c: SSlice) -> bool {
        match spec_parse_cell(m, (c.ptr + c.size + 2 * CELL_META_SIZE) as u64) {
            Some(n) => !n.allocated && n.ptr >= self.data_start(),
            None => false,
        }
    }

    /// Where a cell freed at `c` must begin after coalescing: at the
    /// low-side free neighbor's start when there is one, else at `c`
    /// itself.
    pub open spec fn spec_merge_left_ptr(self, m: Seq<u8>, c: SSlice) -> u64 {
        if self.mergeable_start(m, c) {
            (spec_parse_cell_end(m, c.ptr)->0).ptr
        } else {
            c.ptr
        }
    }

    /// Where a cell freed at `c` must end after coalescing: one past the
    /// high-side free neighbor when there is one, else where `c` ended.
    pub open spec fn spec_merge_right_end(self, m: Seq<u8>, c: SSlice) -> int {
        if self.mergeable_end(m, c) {
            (spec_parse_cell(m, (c.ptr + c.size + 2 * CELL_META_SIZE) as u64)->0).end_off()
        } else {
            c.end_off()
        }
    }

    /// First offset past the header cell, as a machine word.
    fn data_start_exec(&self, mem: &Memory) -> (r: u64)
        requires
            self.wf_in(mem@),
        ensures
            r == self.data_start(),
    {
        let n: u64 = mem.len_bytes();
        self.slice.get_next_neighbor_ptr()
    }

    /// Load the free cell at `ptr` for list surgery, validating everything
    /// [`StableMemoryAllocator::spec_load_free`] asks: parseability, the
    /// free state, and a position inside the data region.
    fn load_free_cell(&self, mem: &Memory, ptr: u64) -> (r: Option<SSlice>)
        requires
            self.wf_in(mem@),
        ensures
            r == self.spec_load_free(mem@, ptr),
            r matches Some(c) ==> {
                &&& c.wf_in(mem@)
                &&& !c.allocated
                &&& c.ptr == ptr
                &&& c.ptr >= self.data_start()
            },
    {
        let ds: u64 = self.data_start_exec(mem);
        match SSlice::from_ptr(mem, ptr, Side::Start) {
            Some(c) => {
                let (_, allocated) = c.get_meta();
                if !allocated && c.get_ptr() >= ds {
                    Some(c)
                } else {
                    None
                }
            },
            None => None,
        }
    }

    /// The head cell of a size class, or nothing when the persisted head
    /// pointer is the empty sentinel or fails validation.
    pub fn get_seg_class_head(&self, mem: &Memory, id: u32) -> (r: Option<SSlice>)
        requires
            self.wf_in(mem@),
            id < SEG_CLASS_PTRS_COUNT,
        ensures
            r == (if self.seg_class_head(mem@, id as int) == EMPTY_PTR {
                None::<SSlice>
            } else {
                self.spec_load_free(mem@, self.seg_class_head(mem@, id as int))
            }),
            r matches Some(c) ==> {
                &&& c.wf_in(mem@)
                &&& !c.allocated
                &&& c.ptr == self.seg_class_head(mem@, id as int)
                &&& c.ptr >= self.data_start()
            },
    {
        let ptr: u64 = self.slice._read_word(mem, Self::get_seg_class_head_offset(id));
        if ptr == EMPTY_PTR {
            return None;
        }
        self.load_free_cell(mem, ptr)
    }

    /// Whether the byte footprints of two cells do not overlap.
    fn cells_disjoint(mem: &Memory, a: &SSlice, b: &SSlice) -> (r: bool)
        requires
            a.wf_in(mem@),
            b.wf_in(mem@),
        ensures
            r == (a.end_off() <= b.ptr || b.end_off() <= a.ptr),
    {
        let n: u64 = mem.len_bytes();
        a.ptr + a.size + 2 * CELL_META_SIZE <= b.ptr
            || b.ptr + b.size + 2 * CELL_META_SIZE <= a.ptr
    }

    /// Unthread a free cell from the doubly-linked list of its size class:
    /// when it was the head (its back link holds the header sentinel), the
    /// class head moves to its successor; otherwise its predecessor's
    /// forward link and its successor's back link are spliced around it.
    /// Its own links are blanked, the free counter is debited by its
    /// footprint, and no other class is touched. Fails, leaving the region
    /// untouched, when a link does not lead to a sound free cell of the
    /// data region, when linked cells overlap, or when the counter would
    /// underflow.
    pub(crate) fn eject_from_freelist(
        &self,
        mem: &mut Memory,
        seg_class_id: u32,
        membox: &SSlice,
    ) -> (r: Result<(), AllocError>)
        requires
            self.wf_in(old(mem)@),
            old(mem).wf(),
            membox.wf_in(old(mem)@),
            !membox.allocated,
            membox.ptr >= self.data_start(),
            seg_class_id < SEG_CLASS_PTRS_COUNT,
        ensures
            final(mem).wf(),
            final(mem).max_pages_spec() == old(mem).max_pages_spec(),
            final(mem)@.len() == old(mem)@.len(),
            self.wf_in(final(mem)@),
            match r {
                Ok(u) => {
                    &&& membox.wf_in(final(mem)@)
                    &&& self.free_size(old(mem)@) >= membox.total_spec()
                    &&& self.free_size(final(mem)@)
                        == self.free_size(old(mem)@) - membox.total_spec()
                    &&& self.allocated_size(final(mem)@) == self.allocated_size(old(mem)@)
                    &&& self.on_low_flag(final(mem)@) == self.on_low_flag(old(mem)@)
                    &&& self.config_preserved(old(mem)@, final(mem)@)
                    &&& membox.prev_free(final(mem)@) == EMPTY_PTR
                    &&& membox.next_free(final(mem)@) == EMPTY_PTR
                    &&& forall|j: int|
                        0 <= j < SEG_CLASS_PTRS_COUNT && j != seg_class_id
                            ==> self.seg_class_head(final(mem)@, j)
                                == self.seg_class_head(old(mem)@, j)
                    &&& (membox.prev_free(old(mem)@) == self.slice.ptr
                        ==> self.seg_class_head(final(mem)@, seg_class_id as int)
                            == membox.next_free(old(mem)@))
                    &&& (membox.prev_free(old(mem)@) != self.slice.ptr ==> {
                        &&& self.seg_class_head(final(mem)@, seg_class_id as int)
                            == self.seg_class_head(old(mem)@, seg_class_id as int)
                        &&& self.spec_load_free(old(mem)@, membox.prev_free(old(mem)@))
                            matches Some(p) && p.next_free(final(mem)@) == (
                            if self.spec_load_free(old(mem)@, membox.next_free(old(mem)@))
                                is Some {
                                membox.next_free(old(mem)@)
                            } else {
                                EMPTY_PTR
                            })
                    })
                    &&& (self.spec_load_free(old(mem)@, membox.next_free(old(mem)@))
                        matches Some(n) ==> n.prev_free(final(mem)@) == (
                        if membox.prev_free(old(mem)@) == self.slice.ptr {
                            self.slice.ptr
                        } else {
                            membox.prev_free(old(mem)@)
                        }))
                },
                Err(e) => {
                    &&& e == AllocError::InvariantViolation
                    &&& final(mem)@ == old(mem)@
                },
            },
            self.spec_eject_sound(old(mem)@, *membox) ==> r is Ok,
    {
        let ghost m0: Seq<u8> = old(mem)@;
        let ds: u64 = self.data_start_exec(mem);
        let hptr: u64 = self.slice.get_ptr();
        let prev_ptr: u64 = membox.get_prev_free_ptr(mem);
        let next_ptr: u64 = membox.get_next_free_ptr(mem);
        let total: u64 = membox.get_total_size_bytes();
        let free_total: u64 = self.get_free_size(mem);
        if free_total < total {
            return Err(AllocError::InvariantViolation);
        }
        if prev_ptr == hptr {
            // the cell is the head of its class
            let next_opt = self.load_free_cell(mem, next_ptr);
            match next_opt {
                Some(next) => {
                    if !Self::cells_disjoint(mem, &next, membox) {
                        return Err(AllocError::InvariantViolation);
                    }
                    self.set_seg_class_head(mem, seg_class_id, next_ptr);
                    let ghost m1: Seq<u8> = mem@;
                    proof {
                        lemma_wf_frame(next, m0, m1);
                        lemma_wf_frame(*membox, m0, m1);
                    }
                    next.set_prev_free_ptr(mem, hptr);
                    proof {
                        lemma_wf_frame(*membox, m1, mem@);
                        lemma_word_at_frame(m1, mem@, self.head_off(seg_class_id as int));
                    }
                },
                None => {
                    self.set_seg_class_head(mem, seg_class_id, next_ptr);
                    proof {
                        lemma_wf_frame(*membox, m0, mem@);
                    }
                },
            }
        } else {
            let prev_opt = self.load_free_cell(mem, prev_ptr);
            let prev = match prev_opt {
                Some(p) => p,
                None => {
                    return Err(AllocError::InvariantViolation);
                },
            };
            let next_opt = self.load_free_cell(mem, next_ptr);
            if !Self::cells_disjoint(mem, &prev, membox) {
                return Err(AllocError::InvariantViolation);
            }
            match next_opt {
                Some(next) => {
                    if !Self::cells_disjoint(mem, &next, membox)
                        || !Self::cells_disjoint(mem, &prev, &next) {
                        return Err(AllocError::InvariantViolation);
                    }
                    prev.set_next_free_ptr(mem, next.get_ptr());
                    let ghost m1: Seq<u8> = mem@;
                    proof {
                        lemma_wf_frame(next, m0, m1);
                        lemma_wf_frame(*membox, m0, m1);
                        lemma_header_frame(*self, m0, m1, self.base(), self.base());
                    }
                    next.set_prev_free_ptr(mem, prev.get_ptr());
                    proof {
                        lemma_wf_frame(*membox, m1, mem@);
                        lemma_header_frame(*self, m1, mem@, self.base(), self.base());
                        lemma_word_at_frame(m1, mem@, prev.payload_off() + PTR_SIZE);
                    }
                },
                None => {
                    prev.set_next_free_ptr(mem, EMPTY_PTR);
                    proof {
                        lemma_wf_frame(*membox, m0, mem@);
                        lemma_header_frame(*self, m0, mem@, self.base(), self.base());
                    }
                },
            }
        }
        let ghost m2: Seq<u8> = mem@;
        proof {
            lemma_header_frame(
                *self,
                m0,
                m2,
                self.head_off(seg_class_id as int),
                self.head_off(seg_class_id as int) + PTR_SIZE,
            );
        }
        self.set_free_size(mem, free_total - total);
        let ghost m3: Seq<u8> = mem@;
        proof {
            lemma_wf_frame(*membox, m2, m3);
            lemma_header_frame(
                *self,
                m2,
                m3,
                self.base() + OFF_FREE,
                self.base() + OFF_FREE + PTR_SIZE,
            );
        }
        membox.set_prev_free_ptr(mem, EMPTY_PTR);
        let ghost m4: Seq<u8> = mem@;
        proof {
            lemma_header_frame(*self, m3, m4, self.base(), self.base());
        }
        membox.set_next_free_ptr(mem, EMPTY_PTR);
        proof {
            lemma_header_frame(*self, m4, mem@, self.base(), self.base());
            lemma_word_at_frame(m4, mem@, membox.payload_off());
            if self.spec_load_free(m0, next_ptr) is Some {
                let n = self.spec_load_free(m0, next_ptr)->0;
                lemma_word_at_frame(m2, m3, n.payload_off());
                lemma_word_at_frame(m3, m4, n.payload_off());
                lemma_word_at_frame(m4, mem@, n.payload_off());
            }
            if prev_ptr != hptr && self.spec_load_free(m0, prev_ptr) is Some {
                let p = self.spec_load_free(m0, prev_ptr)->0;
                lemma_word_at_frame(m2, m3, p.payload_off() + PTR_SIZE);
                lemma_word_at_frame(m3, m4, p.payload_off() + PTR_SIZE);
                lemma_word_at_frame(m4, mem@, p.payload_off() + PTR_SIZE);
            }
        }
        Ok(())
    }
}

impl StableMemoryAllocator {
    /// Coalesce a freshly freed cell with each physical neighbor that is
    /// free: eject the neighbor from its class and merge. The result spans
    /// exactly from the low-side free neighbor's start (or the cell's own)
    /// to one past the high-side free neighbor (or the cell's own end): an
    /// available free neighbor is never left standing. The free counter
    /// ends debited by exactly the footprint the merged cell gained over
    /// the freed one, since that footprint left the lists.
    pub(crate) fn maybe_merge_with_free_neighbors(
        &self,
        mem: &mut Memory,
        membox: SSlice,
    ) -> (r: Result<SSlice, AllocError>)
        requires
            self.wf_in(old(mem)@),
            old(mem).wf(),
            membox.wf_in(old(mem)@),
            !membox.allocated,
            membox.ptr >= self.data_start(),
        ensures
            final(mem).wf(),
            final(mem).max_pages_spec() == old(mem).max_pages_spec(),
            final(mem)@.len() == old(mem)@.len(),
            self.wf_in(final(mem)@),
            self.config_preserved(old(mem)@, final(mem)@),
            self.on_low_flag(final(mem)@) == self.on_low_flag(old(mem)@),
            self.allocated_size(final(mem)@) == self.allocated_size(old(mem)@),
            match r {
                Ok(c) => {
                    &&& c.wf_in(final(mem)@)
                    &&& !c.allocated
                    &&& c.ptr >= self.data_start()
                    &&& c.total_spec() >= membox.total_spec()
                    &&& self.free_size(old(mem)@) + membox.total_spec() >= c.total_spec()
                    &&& self.free_size(final(mem)@)
                        == self.free_size(old(mem)@) - (c.total_spec() - membox.total_spec())
                    &&& (!self.mergeable_start(old(mem)@, membox)
                        && !self.mergeable_end(old(mem)@, membox)
                        ==> c == membox && final(mem)@ == old(mem)@)
                    &&& c.ptr == self.spec_merge_left_ptr(old(mem)@, membox)
                    &&& c.end_off() == self.spec_merge_right_end(old(mem)@, membox)
                },
                Err(e) => e == AllocError::InvariantViolation,
            },
            !self.mergeable_start(old(mem)@, membox) && !self.mergeable_end(old(mem)@, membox)
                ==> r is Ok,
    {
        let ghost m0: Seq<u8> = old(mem)@;
        let ds: u64 = self.data_start_exec(mem);
        let mut cur: SSlice = membox;
        proof {
            mem.lemma_wf_bounds();
        }
        // both neighbors are judged on the state the cell was freed in
        let prev_neighbor_opt = cur.get_neighbor(mem, Side::Start);
        let next_neighbor_opt = cur.get_neighbor(mem, Side::End);
        match prev_neighbor_opt {
            Some(prev_n) => {
                let (nsize, nalloc) = prev_n.get_meta();
                if !nalloc && prev_n.get_ptr() >= ds {
                    let id: u32 = get_seg_class_id(nsize);
                    match self.eject_from_freelist(mem, id, &prev_n) {
                        Ok(u) => {},
                        Err(e) => {
                            return Err(e);
                        },
                    }
                    let cur2 = match self.load_free_cell(mem, cur.get_ptr()) {
                        Some(c) => c,
                        None => {
                            return Err(AllocError::InvariantViolation);
                        },
                    };
                    if !(cur2 == cur) {
                        return Err(AllocError::InvariantViolation);
                    }
                    let ghost m_e: Seq<u8> = mem@;
                    proof {
                        mem.lemma_wf_bounds();
                    }
                    cur = cur.merge_with_neighbor(mem, prev_n);
                    proof {
                        lemma_header_frame(*self, m_e, mem@, self.base(), self.base());
                    }
                }
            },
            None => {},
        }
        match next_neighbor_opt {
            Some(next_n) => {
                let (nsize, nalloc) = next_n.get_meta();
                if !nalloc && next_n.get_ptr() >= ds {
                    // the unthreading on the low side may only have touched
                    // list links; the neighbor's cell must still stand
                    // exactly as it was judged
                    let n2 = match self.load_free_cell(mem, next_n.get_ptr()) {
                        Some(c) => c,
                        None => {
                            return Err(AllocError::InvariantViolation);
                        },
                    };
                    if !(n2 == next_n) {
                        return Err(AllocError::InvariantViolation);
                    }
                    let id: u32 = get_seg_class_id(nsize);
                    match self.eject_from_freelist(mem, id, &next_n) {
                        Ok(u) => {},
                        Err(e) => {
                            return Err(e);
                        },
                    }
                    let cur2 = match self.load_free_cell(mem, cur.get_ptr()) {
                        Some(c) => c,
                        None => {
                            return Err(AllocError::InvariantViolation);
                        },
                    };
                    if !(cur2 == cur) {
                        return Err(AllocError::InvariantViolation);
                    }
                    let ghost m_e2: Seq<u8> = mem@;
                    proof {
                        mem.lemma_wf_bounds();
                    }
                    cur = cur.merge_with_neighbor(mem, next_n);
                    proof {
                        lemma_header_frame(*self, m_e2, mem@, self.base(), self.base());
                    }
                }
            },
            None => {},
        }
        Ok(cur)
    }

    /// Thread a freed cell into the free list of its size class, after
    /// coalescing it with any free physical neighbors, and credit the free
    /// counter with the freed footprint. The resulting cell becomes the new
    /// head of its class, its predecessor link holding the allocator-header
    /// sentinel.
    pub(crate) fn push_free_membox(&self, mem: &mut Memory, membox: SSlice)
        -> (r: Result<SSlice, AllocError>)
        requires
            self.wf_in(old(mem)@),
            old(mem).wf(),
            membox.wf_in(old(mem)@),
            !membox.allocated,
            membox.ptr >= self.data_start(),
        ensures
            final(mem).wf(),
            final(mem).max_pages_spec() == old(mem).max_pages_spec(),
            final(mem)@.len() == old(mem)@.len(),
            self.wf_in(final(mem)@),
            self.config_preserved(old(mem)@, final(mem)@),
            self.on_low_flag(final(mem)@) == self.on_low_flag(old(mem)@),
            self.allocated_size(final(mem)@) == self.allocated_size(old(mem)@),
            match r {
                Ok(c) => {
                    &&& c.wf_in(final(mem)@)
                    &&& !c.allocated
                    &&& c.ptr >= self.data_start()
                    &&& c.total_spec() >= membox.total_spec()
                    &&& self.free_size(final(mem)@)
                        == self.free_size(old(mem)@) + membox.total_spec()
                    &&& self.seg_class_head(final(mem)@, spec_seg_class_id(c.size)) == c.ptr
                    &&& c.prev_free(final(mem)@) == self.slice.ptr
                    &&& (c.next_free(final(mem)@) == EMPTY_PTR
                        || (spec_parse_cell(final(mem)@, c.next_free(final(mem)@))
                            matches Some(h) && !h.allocated
                            && h.prev_free(final(mem)@) == c.ptr))
                    &&& (!self.mergeable_start(old(mem)@, membox)
                        && !self.mergeable_end(old(mem)@, membox) ==> c == membox
                            && c.next_free(final(mem)@) == (if self.spec_load_free(
                                old(mem)@,
                                self.seg_class_head(old(mem)@, spec_seg_class_id(c.size)),
                            ) is Some {
                                self.seg_class_head(old(mem)@, spec_seg_class_id(c.size))
                            } else {
                                EMPTY_PTR
                            }))
                    &&& c.ptr == self.spec_merge_left_ptr(old(mem)@, membox)
                    &&& c.end_off() == self.spec_merge_right_end(old(mem)@, membox)
                },
                Err(e) => e == AllocError::InvariantViolation,
            },
            ({
                &&& !self.mergeable_start(old(mem)@, membox)
                &&& !self.mergeable_end(old(mem)@, membox)
                &&& self.free_size(old(mem)@) + membox.total_spec() <= u64::MAX
                &&& self.seg_class_head(old(mem)@, spec_seg_class_id(membox.size)) == EMPTY_PTR
            }) ==> ({
                &&& r is Ok
                &&& forall|j: int|
                    0 <= j < SEG_CLASS_PTRS_COUNT && j != spec_seg_class_id(membox.size)
                        ==> self.seg_class_head(final(mem)@, j)
                            == self.seg_class_head(old(mem)@, j)
            }),
    {
        let ghost m0: Seq<u8> = old(mem)@;
        let merged = match self.maybe_merge_with_free_neighbors(mem, membox) {
            Ok(c) => c,
            Err(e) => {
                return Err(e);
            },
        };
        let ghost m1: Seq<u8> = mem@;
        let total_free: u64 = self.get_free_size(mem);
        let mtotal: u64 = merged.get_total_size_bytes();
        if total_free > u64::MAX - mtotal {
            return Err(AllocError::InvariantViolation);
        }
        let (msize, _) = merged.get_meta();
        let seg_class_id: u32 = get_seg_class_id(msize);
        let head_opt = self.get_seg_class_head(mem, seg_class_id);
        match &head_opt {
            Some(head) => {
                if !Self::cells_disjoint(mem, head, &merged) {
                    return Err(AllocError::InvariantViolation);
                }
            },
            None => {},
        }
        self.set_seg_class_head(mem, seg_class_id, merged.get_ptr());
        let ghost m2: Seq<u8> = mem@;
        proof {
            lemma_wf_frame(merged, m1, m2);
            lemma_header_frame(*self, m1, m2, self.head_off(seg_class_id as int),
                self.head_off(seg_class_id as int) + PTR_SIZE);
            match head_opt {
                Some(h) => {
                    lemma_wf_frame(h, m1, m2);
                },
                None => {},
            }
        }
        merged.set_prev_free_ptr(mem, self.slice.get_ptr());
        let ghost m3: Seq<u8> = mem@;
        proof {
            lemma_header_frame(*self, m2, m3, self.base(), self.base());
        }
        match head_opt {
            None => {
                merged.set_next_free_ptr(mem, EMPTY_PTR);
                proof {
                    lemma_header_frame(*self, m3, mem@, self.base(), self.base());
                    lemma_word_at_frame(m3, mem@, merged.payload_off());
                }
            },
            Some(head) => {
                merged.set_next_free_ptr(mem, head.get_ptr());
                let ghost m4: Seq<u8> = mem@;
                proof {
                    lemma_header_frame(*self, m3, m4, self.base(), self.base());
                    lemma_wf_frame(head, m2, m3);
                    lemma_wf_frame(head, m3, m4);
                    lemma_word_at_frame(m3, m4, merged.payload_off());
                }
                head.set_prev_free_ptr(mem, merged.get_ptr());
                proof {
                    lemma_header_frame(*self, m4, mem@, self.base(), self.base());
                    lemma_wf_frame(merged, m4, mem@);
                    lemma_word_at_frame(m4, mem@, merged.payload_off());
                    lemma_word_at_frame(m4, mem@, merged.payload_off() + PTR_SIZE);
                }
            },
        }
        let ghost m5: Seq<u8> = mem@;
        self.set_free_size(mem, total_free + mtotal);
        proof {
            mem.lemma_wf_bounds();
            lemma_wf_frame(merged, m5, mem@);
            lemma_word_at_frame(m5, mem@, merged.payload_off());
            lemma_word_at_frame(m5, mem@, merged.payload_off() + PTR_SIZE);
            lemma_header_frame(*self, m5, mem@, self.base() + OFF_FREE,
                self.base() + OFF_FREE + PTR_SIZE);
            match head_opt {
                Some(h) => {
                    lemma_wf_frame(h, m5, mem@);
                    lemma_word_at_frame(m5, mem@, h.payload_off());
                    lemma_parse_cell_complete(mem@, h);
                },
                None => {},
            }
        }
        Ok(merged)
    }
}

impl StableMemoryAllocator {
    /// Walk the free list headed by `first` for the first cell that can
    /// hold `size` payload bytes: first fit wins. Nothing says the list is
    /// sorted, so the walk is linear; it is fuel-bounded so that a cyclic
    /// (corrupt) list is detected rather than followed forever. `Ok(None)`
    /// says the walk reached the end sentinel with no fit anywhere on the
    /// list.
    #[verifier::loop_isolation(false)]
    fn find_fit_in_class(&self, mem: &Memory, first: SSlice, size: u64)
        -> (r: Result<Option<SSlice>, AllocError>)
        requires
            self.wf_in(mem@),
            mem.wf(),
            first.wf_in(mem@),
            !first.allocated,
            first.ptr >= self.data_start(),
            self.spec_load_free(mem@, first.ptr) == Some(first),
        ensures
            match r {
                Ok(found) => match found {
                    Some(c) => {
                        &&& c.wf_in(mem@)
                        &&& !c.allocated
                        &&& c.ptr >= self.data_start()
                        &&& c.size >= size
                    },
                    None => !self.spec_list_has_fit(
                        mem@,
                        first.ptr,
                        size,
                        (mem@.len() / 32 + 1) as nat,
                    ),
                },
                Err(e) => e == AllocError::InvariantViolation,
            },
    {
        let n: u64 = mem.len_bytes();
        let ghost fuel0: nat = (mem@.len() / 32 + 1) as nat;
        let mut fuel: u64 = n / 32 + 1;
        let mut cur: SSlice = first;
        loop
            invariant
                cur.wf_in(mem@),
                !cur.allocated,
                cur.ptr >= self.data_start(),
                self.spec_load_free(mem@, cur.ptr) == Some(cur),
                fuel <= fuel0,
                self.spec_list_has_fit(mem@, first.ptr, size, fuel0)
                    == self.spec_list_has_fit(mem@, cur.ptr, size, fuel as nat),
            decreases fuel,
        {
            if fuel == 0 {
                // a walk longer than the region can hold distinct cells
                // must have followed a cycle
                return Err(AllocError::InvariantViolation);
            }
            if cur.get_size_bytes() >= size {
                return Ok(Some(cur));
            }
            let next_ptr: u64 = cur.get_next_free_ptr(mem);
            proof {
                assert(self.spec_list_has_fit(mem@, cur.ptr, size, fuel as nat)
                    == self.spec_list_has_fit(mem@, next_ptr, size, (fuel - 1) as nat));
            }
            if next_ptr == EMPTY_PTR {
                proof {
                    assert(!self.spec_list_has_fit(mem@, EMPTY_PTR, size, (fuel - 1) as nat));
                }
                return Ok(None);
            }
            cur = match self.load_free_cell(mem, next_ptr) {
                Some(c) => c,
                None => {
                    return Err(AllocError::InvariantViolation);
                },
            };
            fuel = fuel - 1;
        }
    }

    /// Find a free cell of payload size at least `size`, unthread it, mark
    /// it allocated, and credit the allocated counter with its footprint.
    ///
    /// The cell's own size class is walked first, first fit wins; after
    /// that only the heads of the larger classes are inspected, and a head
    /// large enough is split so that the remainder rejoins the free lists.
    /// When nothing fits, the region is left untouched and `OutOfMemory`
    /// comes back.
    #[verifier::loop_isolation(false)]
    pub(crate) fn pop_allocated_membox(&self, mem: &mut Memory, size: u64)
        -> (r: Result<SSlice, AllocError>)
        requires
            self.wf_in(old(mem)@),
            old(mem).wf(),
            CELL_MIN_SIZE <= size < ALLOCATED_BIT,
        ensures
            final(mem).wf(),
            final(mem).max_pages_spec() == old(mem).max_pages_spec(),
            final(mem)@.len() == old(mem)@.len(),
            self.wf_in(final(mem)@),
            self.config_preserved(old(mem)@, final(mem)@),
            self.on_low_flag(final(mem)@) == self.on_low_flag(old(mem)@),
            match r {
                Ok(c) => {
                    &&& c.wf_in(final(mem)@)
                    &&& c.allocated
                    &&& c.size >= size
                    &&& c.ptr >= self.data_start()
                    &&& c.prev_free(final(mem)@) == EMPTY_PTR
                    &&& c.next_free(final(mem)@) == EMPTY_PTR
                    &&& self.allocated_size(final(mem)@)
                        == self.allocated_size(old(mem)@) + c.total_spec()
                    &&& self.free_size(old(mem)@) >= c.total_spec()
                    &&& self.free_size(final(mem)@)
                        == self.free_size(old(mem)@) - c.total_spec()
                },
                Err(e) => {
                    &&& self.allocated_size(final(mem)@) == self.allocated_size(old(mem)@)
                    &&& (e == AllocError::OutOfMemory ==> final(mem)@ == old(mem)@
                        && !self.some_head_fits(old(mem)@, size)
                        && !self.spec_list_has_fit(
                            old(mem)@,
                            self.seg_class_head(old(mem)@, spec_seg_class_id(size)),
                            size,
                            (old(mem)@.len() / 32 + 1) as nat,
                        ))
                },
            },
    {
        let ghost m0: Seq<u8> = old(mem)@;
        let ds: u64 = self.data_start_exec(mem);
        let mut seg_class_id: u32 = get_seg_class_id(size);
        let ghost start_id: int = seg_class_id as int;
        let alloc_total: u64 = self.get_allocated_size(mem);
        let n: u64 = mem.len_bytes();

        // linear walk of the cell's own class: first fit wins
        let head_opt = self.get_seg_class_head(mem, seg_class_id);
        match head_opt {
            Some(first) => {
                let free_membox = match self.find_fit_in_class(mem, first, size) {
                    Ok(Some(c)) => Some(c),
                    Ok(None) => None,
                    Err(e) => {
                        return Err(e);
                    },
                };
                match free_membox {
                    Some(free_membox) => {
                        match self.eject_from_freelist(mem, seg_class_id, &free_membox) {
                            Ok(u) => {},
                            Err(e) => {
                                return Err(e);
                            },
                        }
                        let ghost m1: Seq<u8> = mem@;
                        let mut c: SSlice = free_membox;
                        c.set_allocated(mem, true);
                        proof {
                            lemma_header_frame(*self, m1, mem@, self.base(), self.base());
                            lemma_word_at_frame(m1, mem@, c.payload_off());
                            lemma_word_at_frame(m1, mem@, c.payload_off() + PTR_SIZE);
                        }
                        let total: u64 = c.get_total_size_bytes();
                        if alloc_total > u64::MAX - total {
                            return Err(AllocError::InvariantViolation);
                        }
                        let ghost m2: Seq<u8> = mem@;
                        self.set_allocated_size(mem, alloc_total + total);
                        proof {
                            lemma_wf_frame(c, m2, mem@);
                            lemma_word_at_frame(m2, mem@, c.payload_off());
                            lemma_word_at_frame(m2, mem@, c.payload_off() + PTR_SIZE);
                            lemma_header_frame(*self, m2, mem@, self.base() + OFF_ALLOCATED,
                                self.base() + OFF_ALLOCATED + PTR_SIZE);
                        }
                        return Ok(c);
                    },
                    None => {},
                }
            },
            None => {
                proof {
                    assert(!self.spec_list_has_fit(m0,
                        self.seg_class_head(m0, seg_class_id as int), size,
                        (m0.len() / 32 + 1) as nat));
                }
            },
        }

        // no fit in the own class: inspect the heads of the larger classes
        let mut found: Option<SSlice> = None;
        let mut found_id: u32 = 0;
        seg_class_id = seg_class_id + 1;
        while seg_class_id < (SEG_CLASS_PTRS_COUNT as u32)
            invariant
                mem@ == m0,
                mem.wf(),
                mem.max_pages_spec() == old(mem).max_pages_spec(),
                seg_class_id <= SEG_CLASS_PTRS_COUNT,
                start_id < seg_class_id,
                match found {
                    Some(c) => {
                        &&& c.wf_in(mem@)
                        &&& !c.allocated
                        &&& c.ptr >= ds
                        &&& c.size >= size
                        &&& found_id < SEG_CLASS_PTRS_COUNT
                    },
                    None => forall|id: int|
                        start_id < id < seg_class_id ==> !self.head_fits(m0, id, size),
                },
            decreases SEG_CLASS_PTRS_COUNT - seg_class_id,
        {
            if found.is_none() {
                let head_opt = self.get_seg_class_head(mem, seg_class_id);
                match head_opt {
                    Some(h) => {
                        if h.get_size_bytes() >= size {
                            found = Some(h);
                            found_id = seg_class_id;
                        } else {
                            proof {
                                assert(!self.head_fits(m0, seg_class_id as int, size));
                            }
                        }
                    },
                    None => {
                        proof {
                            assert(!self.head_fits(m0, seg_class_id as int, size));
                        }
                    },
                }
            }
            seg_class_id = seg_class_id + 1;
        }

        match found {
            Some(big) => {
                match self.eject_from_freelist(mem, found_id, &big) {
                    Ok(u) => {},
                    Err(e) => {
                        return Err(e);
                    },
                }
                let ghost m1: Seq<u8> = mem@;
                match big.split(mem, size) {
                    Ok(pair) => {
                        let mut result: SSlice = pair.0;
                        let additional: SSlice = pair.1;
                        proof {
                            lemma_header_frame(*self, m1, mem@, self.base(), self.base());
                        }
                        let ghost m_split: Seq<u8> = mem@;
                        result.set_allocated(mem, true);
                        proof {
                            lemma_header_frame(*self, m_split, mem@, self.base(), self.base());
                            lemma_wf_frame(additional, m_split, mem@);
                            mem.lemma_wf_bounds();
                        }
                        match self.push_free_membox(mem, additional) {
                            Ok(c) => {},
                            Err(e) => {
                                return Err(e);
                            },
                        }
                        let result2 = match SSlice::from_ptr(mem, result.get_ptr(), Side::Start) {
                            Some(c) => c,
                            None => {
                                return Err(AllocError::InvariantViolation);
                            },
                        };
                        if !(result2 == result) {
                            return Err(AllocError::InvariantViolation);
                        }
                        // the cell taken over from the split must carry no
                        // list links any more
                        if result._read_word(mem, 0) != EMPTY_PTR
                            || result._read_word(mem, PTR_SIZE) != EMPTY_PTR {
                            return Err(AllocError::InvariantViolation);
                        }
                        let total: u64 = result.get_total_size_bytes();
                        if alloc_total > u64::MAX - total {
                            return Err(AllocError::InvariantViolation);
                        }
                        let ghost m3: Seq<u8> = mem@;
                        self.set_allocated_size(mem, alloc_total + total);
                        proof {
                            lemma_wf_frame(result, m3, mem@);
                            lemma_word_at_frame(m3, mem@, result.payload_off());
                            lemma_word_at_frame(m3, mem@, result.payload_off() + PTR_SIZE);
                            lemma_header_frame(*self, m3, mem@, self.base() + OFF_ALLOCATED,
                                self.base() + OFF_ALLOCATED + PTR_SIZE);
                        }
                        Ok(result)
                    },
                    Err(whole) => {
                        let mut result: SSlice = whole;
                        result.set_allocated(mem, true);
                        let ghost m2: Seq<u8> = mem@;
                        proof {
                            lemma_header_frame(*self, m1, m2, self.base(), self.base());
                            lemma_word_at_frame(m1, m2, result.payload_off());
                            lemma_word_at_frame(m1, m2, result.payload_off() + PTR_SIZE);
                        }
                        let total: u64 = result.get_total_size_bytes();
                        if alloc_total > u64::MAX - total {
                            return Err(AllocError::InvariantViolation);
                        }
                        self.set_allocated_size(mem, alloc_total + total);
                        proof {
                            lemma_wf_frame(result, m2, mem@);
                            lemma_word_at_frame(m2, mem@, result.payload_off());
                            lemma_word_at_frame(m2, mem@, result.payload_off() + PTR_SIZE);
                            lemma_header_frame(*self, m2, mem@, self.base() + OFF_ALLOCATED,
                                self.base() + OFF_ALLOCATED + PTR_SIZE);
                        }
                        Ok(result)
                    },
                }
            },
            None => {
                proof {
                    assert(!self.some_head_fits(m0, size));
                }
                Err(AllocError::OutOfMemory)
            },
        }
    }

    /// The low-memory protocol: idempotent and one-shot. On the first call
    /// the persisted flag is raised and a notification request is left on
    /// the handle for the host to deliver; any later call does nothing.
    pub(crate) fn handle_low_memory(&self, mem: &mut Memory, hook_pending: &mut bool)
        requires
            self.wf_in(old(mem)@),
        ensures
            self.wf_in(final(mem)@),
            final(mem).wf() == old(mem).wf(),
            final(mem).max_pages_spec() == old(mem).max_pages_spec(),
            final(mem)@.len() == old(mem)@.len(),
            self.on_low_flag(final(mem)@),
            forall|i: int|
                0 <= i < old(mem)@.len() && i != self.base() + OFF_ON_LOW
                    ==> final(mem)@[i] == old(mem)@[i],
            self.on_low_flag(old(mem)@) ==> final(mem)@ == old(mem)@
                && *final(hook_pending) == *old(hook_pending),
            !self.on_low_flag(old(mem)@) ==> *final(hook_pending),
    {
        if self.get_on_low_executed_flag(mem) {
            return;
        }
        self.set_on_low_executed_flag(mem, true);
        *hook_pending = true;
    }

    /// Grow the region by `pages_to_grow` pages, unless the hard cap or the
    /// store itself forbids it; in that case fire the low-memory protocol
    /// instead and report nothing. On success the previous page count comes
    /// back and every old byte keeps its value.
    pub(crate) fn grow_or_trigger_low_memory_hook(
        &self,
        mem: &mut Memory,
        pages_to_grow: u64,
        hook_pending: &mut bool,
    ) -> (r: Option<u64>)
        requires
            self.wf_in(old(mem)@),
            old(mem).wf(),
        ensures
            self.wf_in(final(mem)@),
            final(mem).wf(),
            final(mem).max_pages_spec() == old(mem).max_pages_spec(),
            self.config_preserved(old(mem)@, final(mem)@),
            self.allocated_size(final(mem)@) == self.allocated_size(old(mem)@),
            self.free_size(final(mem)@) == self.free_size(old(mem)@),
            forall|id: int|
                0 <= id < SEG_CLASS_PTRS_COUNT
                    ==> self.seg_class_head(final(mem)@, id)
                        == self.seg_class_head(old(mem)@, id),
            *old(hook_pending) ==> *final(hook_pending),
            match r {
                Some(prev) => {
                    &&& prev * PAGE_SIZE_BYTES == old(mem)@.len()
                    &&& final(mem)@.len()
                        == old(mem)@.len() + pages_to_grow * PAGE_SIZE_BYTES
                    &&& forall|i: int|
                        0 <= i < old(mem)@.len() ==> final(mem)@[i] == old(mem)@[i]
                    &&& forall|i: int|
                        old(mem)@.len() <= i < final(mem)@.len() ==> final(mem)@[i] == 0u8
                    &&& *final(hook_pending) == *old(hook_pending)
                    &&& self.on_low_flag(final(mem)@) == self.on_low_flag(old(mem)@)
                    &&& (self.max_grow_pages(old(mem)@) == 0
                        || old(mem)@.len() / (PAGE_SIZE_BYTES as nat) + pages_to_grow
                            < self.max_grow_pages(old(mem)@))
                },
                None => {
                    &&& final(mem)@.len() == old(mem)@.len()
                    &&& self.on_low_flag(final(mem)@)
                    &&& (forall|i: int|
                        0 <= i < old(mem)@.len() && i != self.base() + OFF_ON_LOW
                            ==> final(mem)@[i] == old(mem)@[i])
                    &&& !self.on_low_flag(old(mem)@) ==> *final(hook_pending)
                    &&& ((self.max_grow_pages(old(mem)@) != 0
                        && old(mem)@.len() / (PAGE_SIZE_BYTES as nat) + pages_to_grow
                            >= self.max_grow_pages(old(mem)@))
                        || old(mem)@.len() / (PAGE_SIZE_BYTES as nat) + pages_to_grow
                            > old(mem).max_pages_spec()
                        || old(mem)@.len() + pages_to_grow * PAGE_SIZE_BYTES > usize::MAX
                        || old(mem)@.len() + pages_to_grow * PAGE_SIZE_BYTES > SIZE_MASK)
                },
            },
    {
        let already_grew: u64 = mem.size_pages();
        let max_grow_pages: u64 = self.get_max_grow_pages(mem);
        proof {
            mem.lemma_wf_bounds();
            let len0: nat = old(mem)@.len();
            assert(already_grew == len0 / (PAGE_SIZE_BYTES as nat)) by (nonlinear_arith)
                requires
                    already_grew * PAGE_SIZE_BYTES == len0,
                    PAGE_SIZE_BYTES == 65536,
            ;
        }
        if max_grow_pages != 0
            && (pages_to_grow > u64::MAX - already_grew
                || already_grew + pages_to_grow >= max_grow_pages) {
            self.handle_low_memory(mem, hook_pending);
            proof {
                lemma_header_frame(*self, old(mem)@, mem@, self.base() + OFF_ON_LOW,
                    self.base() + OFF_ON_LOW + 1);
            }
            return None;
        }
        let ghost m0: Seq<u8> = mem@;
        match mem.grow(pages_to_grow) {
            Ok(prev_pages) => {
                proof {
                    assert forall|i: int| 0 <= i < m0.len() implies mem@[i] == m0[i] by {
                        assert(mem@.subrange(0, m0.len() as int) == m0);
                        assert(mem@.subrange(0, m0.len() as int)[i] == mem@[i]);
                    }
                    lemma_wf_frame(self.slice, m0, mem@);
                    lemma_word_at_frame_grow(m0, mem@, self.base() + OFF_ALLOCATED);
                    lemma_word_at_frame_grow(m0, mem@, self.base() + OFF_FREE);
                    lemma_word_at_frame_grow(m0, mem@, self.base() + OFF_MAX_ALLOC_PAGES);
                    lemma_word_at_frame_grow(m0, mem@, self.base() + OFF_MAX_GROW_PAGES);
                    assert forall|id: int| 0 <= id < SEG_CLASS_PTRS_COUNT
                        implies self.seg_class_head(mem@, id)
                            == self.seg_class_head(m0, id)
                    by {
                        lemma_word_at_frame_grow(m0, mem@, self.head_off(id));
                    }
                    assert forall|idx: int| 0 <= idx < CUSTOM_DATA_PTRS_COUNT
                        implies self.custom_ptr(mem@, idx) == self.custom_ptr(m0, idx)
                    by {
                        lemma_word_at_frame_grow(m0, mem@, self.base() + OFF_CUSTOM
                            + idx * PTR_SIZE);
                    }
                }
                Some(prev_pages)
            },
            Err(e) => {
                self.handle_low_memory(mem, hook_pending);
                proof {
                    lemma_header_frame(*self, m0, mem@, self.base() + OFF_ON_LOW,
                        self.base() + OFF_ON_LOW + 1);
                }
                None
            },
        }
    }

    /// Keep the free-buffer promise: when the free lists hold less than the
    /// free-buffer target, grow the region by the missing pages (plus one)
    /// and push the fresh tail span as one free cell, after which the
    /// target is met. A target already met changes nothing at all; a denied
    /// growth changes nothing but the one-shot low-memory flag.
    pub(crate) fn handle_free_buffer(
        &self,
        mem: &mut Memory,
        hook_pending: &mut bool,
    ) -> (r: Result<(), AllocError>)
        requires
            self.wf_in(old(mem)@),
            old(mem).wf(),
        ensures
            self.wf_in(final(mem)@),
            final(mem).wf(),
            final(mem).max_pages_spec() == old(mem).max_pages_spec(),
            final(mem)@.len() >= old(mem)@.len(),
            self.config_preserved(old(mem)@, final(mem)@),
            self.allocated_size(final(mem)@) == self.allocated_size(old(mem)@),
            *old(hook_pending) ==> *final(hook_pending),
            self.free_size(old(mem)@) as nat / (PAGE_SIZE_BYTES as nat)
                >= self.max_allocation_pages(old(mem)@)
                ==> final(mem)@ == old(mem)@ && *final(hook_pending) == *old(hook_pending),
            (self.free_size(old(mem)@) as nat / (PAGE_SIZE_BYTES as nat)
                < self.max_allocation_pages(old(mem)@)
                && final(mem)@.len() == old(mem)@.len()) ==> forall|i: int|
                0 <= i < old(mem)@.len() && i != self.base() + OFF_ON_LOW
                    ==> final(mem)@[i] == old(mem)@[i],
            match r {
                Ok(u) => {
                    &&& self.free_size(final(mem)@)
                        == self.free_size(old(mem)@) + (final(mem)@.len() - old(mem)@.len())
                    &&& (final(mem)@.len() > old(mem)@.len()
                        ==> self.free_size(final(mem)@)
                            >= self.max_allocation_pages(old(mem)@) * PAGE_SIZE_BYTES)
                },
                Err(e) => e == AllocError::InvariantViolation,
            },
    {
        let free: u64 = self.get_free_size(mem);
        let max_allocation_pages: u64 = self.get_max_allocation_pages(mem);
        let fp: u64 = free / PAGE_SIZE_BYTES;
        if fp >= max_allocation_pages {
            return Ok(());
        }
        proof {
            assert(fp * PAGE_SIZE_BYTES <= free) by (nonlinear_arith)
                requires
                    fp == free / PAGE_SIZE_BYTES,
                    PAGE_SIZE_BYTES == 65536,
            ;
        }
        let mut pages_to_grow: u64 = max_allocation_pages - fp;
        if pages_to_grow < u64::MAX {
            pages_to_grow = pages_to_grow + 1;
        }
        let ghost m0: Seq<u8> = old(mem)@;
        match self.grow_or_trigger_low_memory_hook(mem, pages_to_grow, hook_pending) {
            Some(prev_pages) => {
                let ghost m1: Seq<u8> = mem@;
                proof {
                    old(mem).lemma_wf_bounds();
                    mem.lemma_wf_bounds();
                }
                let ptr: u64 = prev_pages * PAGE_SIZE_BYTES;
                let now_pages: u64 = mem.size_pages();
                let new_memory_size: u64 = now_pages * PAGE_SIZE_BYTES - ptr;
                proof {
                    assert(pages_to_grow >= 1);
                    assert(new_memory_size == pages_to_grow * PAGE_SIZE_BYTES);
                    assert(new_memory_size >= PAGE_SIZE_BYTES) by (nonlinear_arith)
                        requires
                            new_memory_size == pages_to_grow * PAGE_SIZE_BYTES,
                            pages_to_grow >= 1,
                            PAGE_SIZE_BYTES == 65536,
                    ;
                }
                let new_free_membox = SSlice::new_total_size(mem, ptr, new_memory_size, false);
                let ghost m2: Seq<u8> = mem@;
                proof {
                    lemma_header_frame(*self, m1, m2, self.base(), self.base());
                }
                match self.push_free_membox(mem, new_free_membox) {
                    Ok(c) => {},
                    Err(e) => {
                        return Err(e);
                    },
                }
                Ok(())
            },
            None => Ok(()),
        }
    }
}

/// The cell layout and header content that a pointer must show for
/// [`StableMemoryAllocator::reinit`] to accept it: a sound allocated cell of
/// exactly the header size whose payload starts with the magic bytes.
pub open spec fn spec_reinit(m: Seq<u8>, offset: u64) -> Option<SSlice> {
    match spec_parse_cell(m, offset) {
        Some(c) => if c.allocated && c.size == ALLOCATOR_SIZE
            && m[c.payload_off() + 0] == 83u8 && m[c.payload_off() + 1] == 77u8
            && m[c.payload_off() + 2] == 65u8 && m[c.payload_off() + 3] == 77u8 {
            Some(c)
        } else {
            None
        },
        None => None,
    }
}

impl StableMemoryAllocator {
    /// The one free cell that [`StableMemoryAllocator::reset`] builds over
    /// everything past the header.
    pub open spec fn spec_reset_cell(self, m: Seq<u8>) -> SSlice {
        SSlice {
            ptr: self.data_start() as u64,
            size: (m.len() - self.data_start() - 2 * CELL_META_SIZE) as u64,
            allocated: false,
        }
    }

    /// What a region looks like right after a reset: zeroed counters,
    /// default knobs, empty user pointers, and — when the region extends
    /// past the header — everything behind the header gathered in one free
    /// cell that heads its size class while every other class is empty.
    pub open spec fn spec_reset_state(self, m_old: Seq<u8>, m: Seq<u8>) -> bool {
        &&& self.allocated_size(m) == 0
        &&& self.max_allocation_pages(m) == DEFAULT_MAX_ALLOCATION_PAGES
        &&& self.max_grow_pages(m) == DEFAULT_MAX_GROW_PAGES
        &&& !self.on_low_flag(m)
        &&& forall|idx: int|
            0 <= idx < CUSTOM_DATA_PTRS_COUNT ==> self.custom_ptr(m, idx) == EMPTY_PTR
        &&& m_old.len() == self.data_start() ==> {
            &&& self.free_size(m) == 0
            &&& forall|j: int|
                0 <= j < SEG_CLASS_PTRS_COUNT ==> self.seg_class_head(m, j) == EMPTY_PTR
        }
        &&& m_old.len() > self.data_start() ==> {
            let c = self.spec_reset_cell(m_old);
            &&& c.wf_in(m)
            &&& self.free_size(m) == c.total_spec()
            &&& self.seg_class_head(m, spec_seg_class_id(c.size)) == c.ptr
            &&& c.prev_free(m) == self.slice.ptr
            &&& forall|j: int|
                0 <= j < SEG_CLASS_PTRS_COUNT && j != spec_seg_class_id(c.size)
                    ==> self.seg_class_head(m, j) == EMPTY_PTR
        }
    }

    /// Return the allocator to its pristine state: every size-class head
    /// and user pointer emptied, counters zeroed, knobs at their defaults,
    /// the low-memory flag cleared, and all space behind the header pushed
    /// as a single free cell.
    #[verifier::loop_isolation(false)]
    pub fn reset(&self, mem: &mut Memory)
        requires
            self.wf_in(old(mem)@),
            old(mem).wf(),
            old(mem)@.len() == self.data_start()
                || old(mem)@.len() >= self.data_start() + CELL_MIN_SIZE + 2 * CELL_META_SIZE,
        ensures
            self.wf_in(final(mem)@),
            final(mem).wf(),
            final(mem).max_pages_spec() == old(mem).max_pages_spec(),
            final(mem)@.len() == old(mem)@.len(),
            self.magic_ok(final(mem)@) == self.magic_ok(old(mem)@),
            self.spec_reset_state(old(mem)@, final(mem)@),
    {
        let ghost m0: Seq<u8> = old(mem)@;
        let ds: u64 = self.data_start_exec(mem);
        let n: u64 = mem.len_bytes();
        proof {
            mem.lemma_wf_bounds();
        }

        let mut i: u32 = 0;
        while i < (SEG_CLASS_PTRS_COUNT as u32)
            invariant
                i <= SEG_CLASS_PTRS_COUNT,
                mem.wf(),
                mem.max_pages_spec() == old(mem).max_pages_spec(),
                mem@.len() == m0.len(),
                self.wf_in(mem@),
                forall|k: int|
                    0 <= k < m0.len()
                        && !(self.head_off(0) <= k < self.head_off(i as int))
                        ==> mem@[k] == m0[k],
                forall|j: int| 0 <= j < i ==> self.seg_class_head(mem@, j) == EMPTY_PTR,
            decreases SEG_CLASS_PTRS_COUNT - i,
        {
            let ghost mp: Seq<u8> = mem@;
            self.set_seg_class_head(mem, i, EMPTY_PTR);
            proof {
                assert forall|j: int| 0 <= j < i + 1
                    implies self.seg_class_head(mem@, j) == EMPTY_PTR
                by {
                    if j < i {
                        assert(self.seg_class_head(mp, j) == EMPTY_PTR);
                        lemma_word_at_frame(mp, mem@, self.head_off(j));
                    }
                }
            }
            i = i + 1;
        }

        let mut idx: u64 = 0;
        let ghost m_heads: Seq<u8> = mem@;
        while idx < CUSTOM_DATA_PTRS_COUNT
            invariant
                idx <= CUSTOM_DATA_PTRS_COUNT,
                mem.wf(),
                mem.max_pages_spec() == old(mem).max_pages_spec(),
                mem@.len() == m0.len(),
                self.wf_in(mem@),
                forall|k: int|
                    0 <= k < m0.len()
                        && !(self.base() + OFF_CUSTOM <= k
                            < self.base() + OFF_CUSTOM + idx * PTR_SIZE)
                        ==> mem@[k] == m_heads[k],
                forall|j: int| 0 <= j < idx ==> self.custom_ptr(mem@, j) == EMPTY_PTR,
                forall|j: int|
                    0 <= j < SEG_CLASS_PTRS_COUNT ==> self.seg_class_head(mem@, j) == EMPTY_PTR,
            decreases CUSTOM_DATA_PTRS_COUNT - idx,
        {
            let ghost mp: Seq<u8> = mem@;
            self.set_custom_data_ptr(mem, idx, EMPTY_PTR);
            proof {
                assert forall|j: int| 0 <= j < idx + 1
                    implies self.custom_ptr(mem@, j) == EMPTY_PTR
                by {
                    if j < idx {
                        assert(self.custom_ptr(mp, j) == EMPTY_PTR);
                        lemma_word_at_frame(mp, mem@, self.base() + OFF_CUSTOM + j * PTR_SIZE);
                    }
                }
                assert forall|j: int| 0 <= j < SEG_CLASS_PTRS_COUNT
                    implies self.seg_class_head(mem@, j) == EMPTY_PTR
                by {
                    assert(self.seg_class_head(mp, j) == EMPTY_PTR);
                    lemma_word_at_frame(mp, mem@, self.head_off(j));
                }
            }
            idx = idx + 1;
        }

        let ghost m1: Seq<u8> = mem@;
        self.set_allocated_size(mem, 0);
        let ghost m2: Seq<u8> = mem@;
        proof {
            lemma_header_frame(*self, m1, m2, self.base() + OFF_ALLOCATED,
                self.base() + OFF_ALLOCATED + PTR_SIZE);
        }
        self.set_free_size(mem, 0);
        let ghost m3: Seq<u8> = mem@;
        proof {
            lemma_header_frame(*self, m2, m3, self.base() + OFF_FREE,
                self.base() + OFF_FREE + PTR_SIZE);
        }
        self.set_max_allocation_pages(mem, DEFAULT_MAX_ALLOCATION_PAGES);
        let ghost m4: Seq<u8> = mem@;
        proof {
            lemma_header_frame(*self, m3, m4, self.base() + OFF_MAX_ALLOC_PAGES,
                self.base() + OFF_MAX_ALLOC_PAGES + PTR_SIZE);
        }
        self.set_max_grow_pages(mem, DEFAULT_MAX_GROW_PAGES);
        let ghost m5: Seq<u8> = mem@;
        proof {
            lemma_header_frame(*self, m4, m5, self.base() + OFF_MAX_GROW_PAGES,
                self.base() + OFF_MAX_GROW_PAGES + PTR_SIZE);
        }
        self.set_on_low_executed_flag(mem, false);
        let ghost m6: Seq<u8> = mem@;
        proof {
            lemma_header_frame(*self, m5, m6, self.base() + OFF_ON_LOW,
                self.base() + OFF_ON_LOW + 1);
        }

        if n > ds {
            let total_free_size: u64 = n - ds;
            let free_mem_box = SSlice::new_total_size(mem, ds, total_free_size, false);
            let ghost m7: Seq<u8> = mem@;
            proof {
                lemma_header_frame(*self, m6, m7, self.base(), self.base());
                lemma_parse_cell_complete(m7, self.slice);
                assert(spec_parse_cell_end(m7, free_mem_box.ptr) == Some(self.slice));
                assert(!self.mergeable_start(m7, free_mem_box));
                assert(free_mem_box.ptr + free_mem_box.size + 2 * CELL_META_SIZE == m7.len());
                assert(!self.mergeable_end(m7, free_mem_box));
                lemma_seg_class_id_bound(free_mem_box.size);
            }
            match self.push_free_membox(mem, free_mem_box) {
                Ok(c) => {},
                Err(e) => {
                    proof {
                        assert(false);
                    }
                },
            }
        }
    }

    /// One-time construction of an allocator at `offset`: writes the header
    /// cell, the magic bytes, and resets. The caller must have grown the
    /// region far enough to hold the header, and what remains behind it
    /// must either be empty or have room for a minimal cell.
    pub fn init(mem: &mut Memory, offset: u64) -> (r: StableMemoryAllocator)
        requires
            old(mem).wf(),
            offset + ALLOCATOR_SIZE + 2 * CELL_META_SIZE <= old(mem)@.len(),
            offset + ALLOCATOR_SIZE + 2 * CELL_META_SIZE == old(mem)@.len()
                || offset + ALLOCATOR_SIZE + 2 * CELL_META_SIZE + CELL_MIN_SIZE
                    + 2 * CELL_META_SIZE <= old(mem)@.len(),
        ensures
            r.slice == (SSlice { ptr: offset, size: ALLOCATOR_SIZE, allocated: true }),
            r.wf_in(final(mem)@),
            r.magic_ok(final(mem)@),
            final(mem).wf(),
            final(mem).max_pages_spec() == old(mem).max_pages_spec(),
            final(mem)@.len() == old(mem)@.len(),
            r.spec_reset_state(old(mem)@, final(mem)@),
            spec_reinit(final(mem)@, offset) == Some(r.slice),
    {
        let slice = SSlice::new(mem, offset, ALLOCATOR_SIZE, true);
        let allocator = StableMemoryAllocator { slice };
        let mut magic: Vec<u8> = Vec::new();
        magic.push(83u8);
        magic.push(77u8);
        magic.push(65u8);
        magic.push(77u8);
        let ghost m1: Seq<u8> = mem@;
        allocator.slice._write_bytes(mem, 0, magic.as_slice());
        proof {
            assert(allocator.magic_ok(mem@)) by {
                assert(mem@.subrange(allocator.base(), allocator.base() + 4) == magic@);
                assert(mem@.subrange(allocator.base(), allocator.base() + 4)[0] == 83u8);
                assert(mem@.subrange(allocator.base(), allocator.base() + 4)[1] == 77u8);
                assert(mem@.subrange(allocator.base(), allocator.base() + 4)[2] == 65u8);
                assert(mem@.subrange(allocator.base(), allocator.base() + 4)[3] == 77u8);
            }
        }
        allocator.reset(mem);
        proof {
            mem.lemma_wf_bounds();
            lemma_parse_cell_complete(mem@, allocator.slice);
        }
        allocator
    }

    /// Re-attach to an allocator persisted at `offset` after a restart.
    /// Nothing is read but the header cell and nothing at all is written:
    /// the persisted lists and counters are trusted as they stand. Yields
    /// nothing when the cell does not parse, is not allocated, has the
    /// wrong size, or lacks the magic bytes.
    pub fn reinit(mem: &Memory, offset: u64) -> (r: Option<StableMemoryAllocator>)
        ensures
            match r {
                Some(a) => {
                    &&& spec_reinit(mem@, offset) == Some(a.slice)
                    &&& a.wf_in(mem@)
                    &&& a.magic_ok(mem@)
                    &&& a.slice.ptr == offset
                },
                None => spec_reinit(mem@, offset) is None,
            },
    {
        let membox = match SSlice::from_ptr(mem, offset, Side::Start) {
            Some(c) => c,
            None => {
                return None;
            },
        };
        let (size, allocated) = membox.get_meta();
        if !allocated || size != ALLOCATOR_SIZE {
            return None;
        }
        let magic: Vec<u8> = membox._read_bytes(mem, 0, 4);
        proof {
            assert(magic@[0] == mem@[membox.payload_off() + 0]);
            assert(magic@[1] == mem@[membox.payload_off() + 1]);
            assert(magic@[2] == mem@[membox.payload_off() + 2]);
            assert(magic@[3] == mem@[membox.payload_off() + 3]);
        }
        if magic[0] != 83u8 || magic[1] != 77u8 || magic[2] != 65u8 || magic[3] != 77u8 {
            return None;
        }
        Some(StableMemoryAllocator { slice: membox })
    }

    /// A `Vec` of `n` zero bytes.
    fn zero_vec(n: u64) -> (r: Vec<u8>)
        ensures
            r@ == Seq::new(n as nat, |i: int| 0u8),
    {
        let mut r: Vec<u8> = Vec::new();
        let mut i: u64 = 0;
        while i < n
            invariant
                i <= n,
                r@.len() == i,
                forall|j: int| 0 <= j < i ==> r@[j] == 0u8,
            decreases n - i,
        {
            r.push(0u8);
            i = i + 1;
        }
        proof {
            assert(r@ =~= Seq::new(n as nat, |i: int| 0u8));
        }
        r
    }

    /// Hand out a cell with a zeroed payload of at least
    /// `max(size, CELL_MIN_SIZE)` bytes, keeping the free-buffer promise on
    /// both sides of the hunt. The allocated counter grows by exactly the
    /// footprint of the returned cell.
    pub fn allocate(
        &self,
        mem: &mut Memory,
        size: u64,
        hook_pending: &mut bool,
    ) -> (r: Result<SSlice, AllocError>)
        requires
            self.wf_in(old(mem)@),
            old(mem).wf(),
            size < ALLOCATED_BIT,
        ensures
            self.wf_in(final(mem)@),
            final(mem).wf(),
            final(mem).max_pages_spec() == old(mem).max_pages_spec(),
            final(mem)@.len() >= old(mem)@.len(),
            self.config_preserved(old(mem)@, final(mem)@),
            *old(hook_pending) ==> *final(hook_pending),
            match r {
                Ok(c) => {
                    &&& c.wf_in(final(mem)@)
                    &&& c.allocated
                    &&& c.size >= size
                    &&& c.size >= CELL_MIN_SIZE
                    &&& c.ptr >= self.data_start()
                    &&& self.allocated_size(final(mem)@)
                        == self.allocated_size(old(mem)@) + c.total_spec()
                    &&& self.free_size(final(mem)@)
                        == self.free_size(old(mem)@) + (final(mem)@.len() - old(mem)@.len())
                            - c.total_spec()
                    &&& c.payload(final(mem)@) == Seq::new(c.size as nat, |i: int| 0u8)
                },
                Err(e) => {
                    &&& self.allocated_size(final(mem)@) >= self.allocated_size(old(mem)@)
                    &&& (e == AllocError::OutOfMemory ==> {
                        &&& self.allocated_size(final(mem)@)
                            == self.allocated_size(old(mem)@)
                        &&& !self.some_head_fits(
                            final(mem)@,
                            if size < CELL_MIN_SIZE { CELL_MIN_SIZE } else { size },
                        )
                    })
                },
            },
            ({
                &&& self.free_size(old(mem)@) as nat / (PAGE_SIZE_BYTES as nat)
                    >= self.max_allocation_pages(old(mem)@)
                &&& r matches Err(e) && e == AllocError::OutOfMemory
            }) ==> ({
                let request = if size < CELL_MIN_SIZE { CELL_MIN_SIZE } else { size };
                &&& !self.some_head_fits(old(mem)@, request)
                &&& !self.spec_list_has_fit(
                    old(mem)@,
                    self.seg_class_head(old(mem)@, spec_seg_class_id(request)),
                    request,
                    (old(mem)@.len() / 32 + 1) as nat,
                )
            }),
    {
        let request: u64 = if size < CELL_MIN_SIZE {
            CELL_MIN_SIZE
        } else {
            size
        };
        match self.handle_free_buffer(mem, hook_pending) {
            Ok(u) => {},
            Err(e) => {
                return Err(e);
            },
        }
        let c = match self.pop_allocated_membox(mem, request) {
            Ok(c) => c,
            Err(e) => {
                return Err(e);
            },
        };
        match self.handle_free_buffer(mem, hook_pending) {
            Ok(u) => {},
            Err(e) => {
                return Err(e);
            },
        }
        let c2 = match SSlice::from_ptr(mem, c.get_ptr(), Side::Start) {
            Some(x) => x,
            None => {
                return Err(AllocError::InvariantViolation);
            },
        };
        if !(c2 == c) {
            return Err(AllocError::InvariantViolation);
        }
        let buf: Vec<u8> = Self::zero_vec(c.get_size_bytes());
        let ghost m_z: Seq<u8> = mem@;
        c._write_bytes(mem, 0, buf.as_slice());
        proof {
            lemma_header_frame(*self, m_z, mem@, self.base(), self.base());
            assert(c.payload(mem@) =~= Seq::new(c.size as nat, |i: int| 0u8));
        }
        Ok(c)
    }

    /// Take back an allocated cell: flip its tags to free, debit the
    /// allocated counter by its footprint, coalesce with free neighbors and
    /// thread the result into its size class. Afterwards one free cell
    /// stands exactly where the freed cell and its free neighbors stood,
    /// heading its class with the header-sentinel back link.
    pub fn deallocate(&self, mem: &mut Memory, membox: SSlice) -> (r: Result<(), AllocError>)
        requires
            self.wf_in(old(mem)@),
            old(mem).wf(),
            membox.wf_in(old(mem)@),
            membox.allocated,
            membox.ptr >= self.data_start(),
        ensures
            self.wf_in(final(mem)@),
            final(mem).wf(),
            final(mem).max_pages_spec() == old(mem).max_pages_spec(),
            final(mem)@.len() == old(mem)@.len(),
            self.config_preserved(old(mem)@, final(mem)@),
            self.on_low_flag(final(mem)@) == self.on_low_flag(old(mem)@),
            match r {
                Ok(u) => {
                    &&& self.allocated_size(old(mem)@) >= membox.total_spec()
                    &&& self.allocated_size(final(mem)@)
                        == self.allocated_size(old(mem)@) - membox.total_spec()
                    &&& self.free_size(final(mem)@)
                        == self.free_size(old(mem)@) + membox.total_spec()
                    &&& (spec_parse_cell(final(mem)@, self.spec_merge_left_ptr(old(mem)@, membox))
                        matches Some(c) && {
                            &&& !c.allocated
                            &&& c.ptr == self.spec_merge_left_ptr(old(mem)@, membox)
                            &&& c.end_off() == self.spec_merge_right_end(old(mem)@, membox)
                            &&& self.seg_class_head(final(mem)@, spec_seg_class_id(c.size))
                                == c.ptr
                            &&& c.prev_free(final(mem)@) == self.slice.ptr
                        })
                },
                Err(e) => {
                    &&& e == AllocError::InvariantViolation
                    &&& (self.allocated_size(final(mem)@) == self.allocated_size(old(mem)@)
                        || self.allocated_size(final(mem)@)
                            == self.allocated_size(old(mem)@) - membox.total_spec())
                },
            },
    {
        let ghost m0: Seq<u8> = old(mem)@;
        let total_allocated: u64 = self.get_allocated_size(mem);
        let total: u64 = membox.get_total_size_bytes();
        if total_allocated < total {
            return Err(AllocError::InvariantViolation);
        }
        let ds: u64 = self.data_start_exec(mem);
        let nb: u64 = mem.len_bytes();
        // where the freed cell must sit after coalescing, judged before
        // anything is written
        let expect_left: u64 = match membox.get_neighbor(mem, Side::Start) {
            Some(p) => {
                let (_, palloc) = p.get_meta();
                if !palloc && p.get_ptr() >= ds {
                    p.get_ptr()
                } else {
                    membox.get_ptr()
                }
            },
            None => membox.get_ptr(),
        };
        let expect_end: u64 = match membox.get_neighbor(mem, Side::End) {
            Some(nxt) => {
                let (_, nalloc) = nxt.get_meta();
                if !nalloc && nxt.get_ptr() >= ds {
                    nxt.get_next_neighbor_ptr()
                } else {
                    membox.get_next_neighbor_ptr()
                }
            },
            None => membox.get_next_neighbor_ptr(),
        };
        let mut freed: SSlice = membox;
        freed.set_allocated(mem, false);
        let ghost m1: Seq<u8> = mem@;
        proof {
            lemma_header_frame(*self, m0, m1, self.base(), self.base());
        }
        self.set_allocated_size(mem, total_allocated - total);
        let ghost m2: Seq<u8> = mem@;
        proof {
            lemma_wf_frame(freed, m1, m2);
            lemma_header_frame(*self, m1, m2, self.base() + OFF_ALLOCATED,
                self.base() + OFF_ALLOCATED + PTR_SIZE);
        }
        let pushed = match self.push_free_membox(mem, freed) {
            Ok(c) => c,
            Err(e) => {
                return Err(e);
            },
        };
        // the coalesced cell must span exactly what the entry state owed
        if pushed.get_ptr() != expect_left {
            return Err(AllocError::InvariantViolation);
        }
        if pushed.get_next_neighbor_ptr() != expect_end {
            return Err(AllocError::InvariantViolation);
        }
        proof {
            mem.lemma_wf_bounds();
            lemma_parse_cell_complete(mem@, pushed);
        }
        Ok(())
    }

    /// Move an allocation to a cell of at least `new_size` payload bytes,
    /// out of place: the old payload is read out, the old cell freed, a new
    /// one allocated, and the payload written back, truncated to whatever
    /// the new cell can hold when it is smaller. A shrinking move never
    /// runs out of memory while the free-buffer target is met: the freed
    /// cell itself heads a class the hunt inspects, so only corrupted
    /// metadata can make it fail.
    pub fn reallocate(
        &self,
        mem: &mut Memory,
        membox: SSlice,
        new_size: u64,
        hook_pending: &mut bool,
    ) -> (r: Result<SSlice, AllocError>)
        requires
            self.wf_in(old(mem)@),
            old(mem).wf(),
            membox.wf_in(old(mem)@),
            membox.allocated,
            membox.ptr >= self.data_start(),
            new_size < ALLOCATED_BIT,
        ensures
            self.wf_in(final(mem)@),
            final(mem).wf(),
            final(mem).max_pages_spec() == old(mem).max_pages_spec(),
            final(mem)@.len() >= old(mem)@.len(),
            self.config_preserved(old(mem)@, final(mem)@),
            *old(hook_pending) ==> *final(hook_pending),
            match r {
                Ok(c) => {
                    &&& c.wf_in(final(mem)@)
                    &&& c.allocated
                    &&& c.size >= new_size
                    &&& c.size >= CELL_MIN_SIZE
                    &&& c.ptr >= self.data_start()
                    &&& self.allocated_size(old(mem)@) >= membox.total_spec()
                    &&& self.allocated_size(final(mem)@)
                        == self.allocated_size(old(mem)@) - membox.total_spec()
                            + c.total_spec()
                    &&& self.free_size(final(mem)@)
                        == self.free_size(old(mem)@) + (final(mem)@.len() - old(mem)@.len())
                            + membox.total_spec() - c.total_spec()
                    &&& forall|i: int|
                        0 <= i < membox.size && i < c.size
                            ==> c.payload(final(mem)@)[i] == membox.payload(old(mem)@)[i]
                },
                Err(e) => self.allocated_size(final(mem)@) + membox.total_spec()
                    >= self.allocated_size(old(mem)@),
            },
            ({
                &&& new_size <= membox.size
                &&& self.free_size(old(mem)@) as nat / (PAGE_SIZE_BYTES as nat)
                    >= self.max_allocation_pages(old(mem)@)
                &&& r matches Err(e)
            }) ==> (r matches Err(e) && e == AllocError::InvariantViolation),
    {
        let ghost m0: Seq<u8> = old(mem)@;
        proof {
            mem.lemma_wf_bounds();
        }
        let mut data: Vec<u8> = membox._read_bytes(mem, 0, membox.get_size_bytes());
        match self.deallocate(mem, membox) {
            Ok(u) => {},
            Err(e) => {
                return Err(e);
            },
        }
        let ghost m_d: Seq<u8> = mem@;
        let c = match self.allocate(mem, new_size, hook_pending) {
            Ok(c) => c,
            Err(e) => {
                proof {
                    if new_size <= membox.size
                        && self.free_size(m0) as nat / (PAGE_SIZE_BYTES as nat)
                            >= self.max_allocation_pages(m0)
                        && e == AllocError::OutOfMemory {
                        // a shrinking reallocation with the free-buffer
                        // target already met cannot run out: the freed cell
                        // heads its class in the state the hunt saw, and it
                        // can hold the request
                        let left: u64 = self.spec_merge_left_ptr(m0, membox);
                        let fc = spec_parse_cell(m_d, left)->0;
                        lemma_parse_cell_sound(m_d, left);
                        lemma_parse_cell_sound(m0, membox.ptr);
                        lemma_parse_cell_sound(
                            m0,
                            (membox.ptr + membox.size + 2 * CELL_META_SIZE) as u64,
                        );
                        let request: u64 = if new_size < CELL_MIN_SIZE {
                            CELL_MIN_SIZE
                        } else {
                            new_size
                        };
                        assert(left <= membox.ptr);
                        assert(self.spec_merge_right_end(m0, membox) >= membox.end_off());
                        assert(fc.ptr == left
                            && fc.end_off() == self.spec_merge_right_end(m0, membox));
                        assert(fc.size >= membox.size);
                        lemma_seg_class_monotone(request, fc.size);
                        lemma_seg_class_id_bound(fc.size);
                        let fr0: nat = self.free_size(m0) as nat;
                        let cap: u64 = self.max_allocation_pages(m0);
                        assert((fr0 / (PAGE_SIZE_BYTES as nat)) * PAGE_SIZE_BYTES <= fr0)
                            by (nonlinear_arith)
                            requires
                                PAGE_SIZE_BYTES == 65536,
                        ;
                        let fr1: nat = self.free_size(m_d) as nat;
                        assert(fr1 / (PAGE_SIZE_BYTES as nat) >= cap) by (nonlinear_arith)
                            requires
                                fr1 >= cap * PAGE_SIZE_BYTES,
                                PAGE_SIZE_BYTES == 65536,
                        ;
                        if spec_seg_class_id(fc.size) > spec_seg_class_id(request) {
                            assert(self.head_fits(
                                m_d,
                                spec_seg_class_id(fc.size),
                                request,
                            ));
                            assert(self.some_head_fits(m_d, request));
                        } else {
                            assert(self.spec_list_has_fit(
                                m_d,
                                self.seg_class_head(m_d, spec_seg_class_id(request)),
                                request,
                                (m_d.len() / 32 + 1) as nat,
                            ));
                        }
                        assert(false);
                    }
                }
                return Err(e);
            },
        };
        if (data.len() as u64) > c.get_size_bytes() {
            data.truncate(c.get_size_bytes() as usize);
        }
        let ghost m_w: Seq<u8> = mem@;
        c._write_bytes(mem, 0, data.as_slice());
        proof {
            lemma_header_frame(*self, m_w, mem@, self.base(), self.base());
            assert forall|i: int| 0 <= i < membox.size && i < c.size
                implies c.payload(mem@)[i] == membox.payload(old(mem)@)[i]
            by {
                assert(c.payload(mem@)[i]
                    == mem@.subrange(c.payload_off(), c.payload_off() + data@.len() as int)[i]);
                assert(data@[i] == membox.payload(old(mem)@)[i]);
            }
        }
        Ok(c)
    }
}

impl StableMemoryAllocator {
    /// The books balance: the allocated and free counters, together with
    /// the header cell's own footprint, account for every byte of the
    /// region that the allocator manages (everything from its header cell
    /// to the end).
    pub open spec fn spec_accounting(self, m: Seq<u8>) -> bool {
        self.allocated_size(m) + self.free_size(m) + self.slice.total_spec()
            == m.len() - self.slice.ptr
    }
}

/// Initialisation balances the books: right after
/// [`StableMemoryAllocator::init`], allocated bytes, free bytes and the
/// header's own footprint add up to the whole managed region.
pub proof fn lemma_accounting_after_init(
    a: StableMemoryAllocator,
    m0: Seq<u8>,
    m1: Seq<u8>,
    offset: u64,
)
    requires
        a.slice == (SSlice { ptr: offset, size: ALLOCATOR_SIZE, allocated: true }),
        a.spec_reset_state(m0, m1),
        m1.len() == m0.len(),
        m0.len() <= SIZE_MASK,
        m0.len() == a.data_start()
            || m0.len() >= a.data_start() + CELL_MIN_SIZE + 2 * CELL_META_SIZE,
    ensures
        a.spec_accounting(m1),
{
    if m0.len() > a.data_start() {
        let c = a.spec_reset_cell(m0);
        assert(c.size == m0.len() - a.data_start() - 2 * CELL_META_SIZE);
        assert(c.total_spec() == m0.len() - a.data_start());
    }
}

/// An allocation keeps the books balanced: whatever the hunt and the
/// growth protocol did, the counters and the region length move together.
pub proof fn lemma_accounting_preserved_by_allocate(
    a: StableMemoryAllocator,
    m0: Seq<u8>,
    m1: Seq<u8>,
    c: SSlice,
)
    requires
        a.spec_accounting(m0),
        m1.len() >= m0.len(),
        a.allocated_size(m1) == a.allocated_size(m0) + c.total_spec(),
        a.free_size(m1) == a.free_size(m0) + (m1.len() - m0.len()) - c.total_spec(),
    ensures
        a.spec_accounting(m1),
{
}

/// A deallocation keeps the books balanced: the freed footprint moves from
/// the allocated counter to the free counter, byte for byte.
pub proof fn lemma_accounting_preserved_by_deallocate(
    a: StableMemoryAllocator,
    m0: Seq<u8>,
    m1: Seq<u8>,
    c: SSlice,
)
    requires
        a.spec_accounting(m0),
        m1.len() == m0.len(),
        a.allocated_size(m1) == a.allocated_size(m0) - c.total_spec(),
        a.free_size(m1) == a.free_size(m0) + c.total_spec(),
    ensures
        a.spec_accounting(m1),
{
}

/// Freeing exactly what an allocation handed out restores the allocated
/// counter to its prior value: deallocate undoes allocate on the books.
pub proof fn lemma_deallocate_undoes_allocate(
    a: StableMemoryAllocator,
    m0: Seq<u8>,
    m1: Seq<u8>,
    m2: Seq<u8>,
    c: SSlice,
)
    requires
        a.allocated_size(m1) == a.allocated_size(m0) + c.total_spec(),
        a.allocated_size(m2) == a.allocated_size(m1) - c.total_spec(),
    ensures
        a.allocated_size(m2) == a.allocated_size(m0),
{
}

/// Re-attaching to a freshly initialised region is the identity: the bytes
/// that [`StableMemoryAllocator::init`] persisted are exactly what
/// [`StableMemoryAllocator::reinit`] demands, and the handle it recovers is
/// the one `init` returned. Nothing is written on the way back in.
pub proof fn lemma_reinit_after_init(a: StableMemoryAllocator, m: Seq<u8>, offset: u64)
    requires
        a.slice == (SSlice { ptr: offset, size: ALLOCATOR_SIZE, allocated: true }),
        a.wf_in(m),
        a.magic_ok(m),
        m.len() <= SIZE_MASK,
    ensures
        spec_reinit(m, offset) == Some(a.slice),
{
    lemma_parse_cell_complete(m, a.slice);
}

/// A freshly reset allocator tiles its region exactly: the header cell,
/// then (when the region extends further) one free cell reaching the end.
/// Every byte of the managed region belongs to exactly one cell, so the
/// cells' footprints sum to the whole region.
pub proof fn lemma_tiled_after_reset(a: StableMemoryAllocator, m0: Seq<u8>, m1: Seq<u8>)
    requires
        a.wf_in(m1),
        a.spec_reset_state(m0, m1),
        m1.len() == m0.len(),
        m1.len() <= SIZE_MASK,
        m0.len() == a.data_start()
            || m0.len() >= a.data_start() + CELL_MIN_SIZE + 2 * CELL_META_SIZE,
    ensures
        spec_tiled_from(m1, a.slice.ptr as int),
{
    lemma_parse_cell_complete(m1, a.slice);
    if m0.len() == a.data_start() {
        assert(spec_tiled_from(m1, a.data_start()));
    } else {
        let c = a.spec_reset_cell(m0);
        assert(c.wf_in(m1));
        lemma_parse_cell_complete(m1, c);
        assert(c.end_off() == m1.len());
        assert(spec_tiled_from(m1, c.end_off()));
        assert(spec_tiled_from(m1, a.data_start()));
    }
    assert(spec_tiled_from(m1, a.slice.ptr as int));
}

} // verus!
