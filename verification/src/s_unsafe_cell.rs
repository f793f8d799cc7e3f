//! A persisted box for one encoded value: a thin client of the allocator
//! that stores an opaque byte buffer in a single allocated cell. Callers
//! encode their value to bytes, store them here, and decode what comes
//! back; the box itself neither knows nor cares about the encoding.

use vstd::prelude::*;
use crate::mem_context::Memory;
use crate::s_slice::{SSlice, Side, spec_parse_cell};
use crate::allocator::{AllocError, StableMemoryAllocator};
use crate::{ALLOCATED_BIT, CELL_MIN_SIZE};

verus! {

/// A handle on one allocated cell holding an encoded value. The payload
/// may be larger than the encoding that was stored (allocation rounds
/// sizes up); decoders read the prefix they understand.
pub struct SUnsafeCell {
    pub slice: SSlice,
}

impl SUnsafeCell {
    /// The handle mirrors region `m` and its cell is live.
    pub open spec fn wf_in(self, m: Seq<u8>) -> bool {
        &&& self.slice.wf_in(m)
        &&& self.slice.allocated
    }

    /// Store an encoded value in a fresh cell.
    pub fn new(
        mem: &mut Memory,
        allocator: &StableMemoryAllocator,
        data: &[u8],
        hook_pending: &mut bool,
    ) -> (r: Result<SUnsafeCell, AllocError>)
        requires
            allocator.wf_in(old(mem)@),
            old(mem).wf(),
            data@.len() < ALLOCATED_BIT,
        ensures
            final(mem).wf(),
            final(mem).max_pages_spec() == old(mem).max_pages_spec(),
            allocator.wf_in(final(mem)@),
            allocator.config_preserved(old(mem)@, final(mem)@),
            match r {
                Ok(c) => {
                    &&& c.wf_in(final(mem)@)
                    &&& c.slice.ptr >= allocator.data_start()
                    &&& c.slice.size >= data@.len()
                    &&& c.slice.payload(final(mem)@).subrange(0, data@.len() as int) == data@
                    &&& allocator.allocated_size(final(mem)@)
                        == allocator.allocated_size(old(mem)@) + c.slice.total_spec()
                },
                Err(e) => e == AllocError::OutOfMemory ==> !allocator.some_head_fits(
                    final(mem)@,
                    if data@.len() < CELL_MIN_SIZE { CELL_MIN_SIZE } else { data@.len() as u64 },
                ),
            },
    {
        let slice = match allocator.allocate(mem, data.len() as u64, hook_pending) {
            Ok(c) => c,
            Err(e) => {
                return Err(e);
            },
        };
        let ghost m1: Seq<u8> = mem@;
        slice._write_bytes(mem, 0, data);
        proof {
            crate::allocator::lemma_header_frame(*allocator, m1, mem@, allocator.base(),
                allocator.base());
            assert(slice.payload(mem@).subrange(0, data@.len() as int) =~= data@);
        }
        Ok(SUnsafeCell { slice })
    }

    /// Read the stored bytes back out: the cell's whole payload, whose
    /// prefix is the encoding that was last written.
    pub fn get_cloned(&self, mem: &Memory) -> (r: Vec<u8>)
        requires
            self.wf_in(mem@),
        ensures
            r@ == self.slice.payload(mem@),
    {
        let r = self.slice._read_bytes(mem, 0, self.slice.get_size_bytes());
        proof {
            assert(r@ =~= self.slice.payload(mem@));
        }
        r
    }

    /// Overwrite the stored value, reallocating when the new encoding does
    /// not fit. The result says whether the cell moved, in which case every
    /// pointer to it must be updated by the caller.
    pub fn set(
        &mut self,
        mem: &mut Memory,
        allocator: &StableMemoryAllocator,
        data: &[u8],
        hook_pending: &mut bool,
    ) -> (r: Result<bool, AllocError>)
        requires
            old(self).wf_in(old(mem)@),
            allocator.wf_in(old(mem)@),
            old(mem).wf(),
            old(self).slice.ptr >= allocator.data_start(),
            data@.len() < ALLOCATED_BIT,
        ensures
            final(mem).wf(),
            final(mem).max_pages_spec() == old(mem).max_pages_spec(),
            allocator.wf_in(final(mem)@),
            allocator.config_preserved(old(mem)@, final(mem)@),
            *old(hook_pending) ==> *final(hook_pending),
            match r {
                Ok(moved) => {
                    &&& moved == (old(self).slice.size < data@.len())
                    &&& final(self).wf_in(final(mem)@)
                    &&& final(self).slice.ptr >= allocator.data_start()
                    &&& final(self).slice.size >= data@.len()
                    &&& final(self).slice.payload(final(mem)@).subrange(0, data@.len() as int)
                        == data@
                    &&& (!moved ==> final(self).slice == old(self).slice)
                },
                Err(e) => true,
            },
    {
        let mut moved: bool = false;
        if self._allocated_size() < data.len() as u64 {
            let new_slice = match allocator.reallocate(
                mem,
                self.slice,
                data.len() as u64,
                hook_pending,
            ) {
                Ok(c) => c,
                Err(e) => {
                    return Err(e);
                },
            };
            self.slice = new_slice;
            moved = true;
        }
        let ghost m1: Seq<u8> = mem@;
        self.slice._write_bytes(mem, 0, data);
        proof {
            crate::allocator::lemma_header_frame(*allocator, m1, mem@, allocator.base(),
                allocator.base());
            assert(self.slice.payload(mem@).subrange(0, data@.len() as int) =~= data@);
        }
        Ok(moved)
    }

    /// The capacity of the underlying cell in bytes.
    pub fn _allocated_size(&self) -> (r: u64)
        ensures
            r == self.slice.size,
    {
        self.slice.get_size_bytes()
    }

    /// Recover a box handle from a persisted pointer, e.g. one stashed in
    /// the allocator's user-pointer table. Yields nothing for the null
    /// pointer or when no sound cell starts there.
    pub fn from_ptr(mem: &Memory, ptr: u64) -> (r: Option<SUnsafeCell>)
        ensures
            match r {
                Some(c) => ptr != 0 && spec_parse_cell(mem@, ptr) == Some(c.slice),
                None => ptr == 0 || spec_parse_cell(mem@, ptr) is None,
            },
    {
        if ptr == 0 {
            return None;
        }
        match SSlice::from_ptr(mem, ptr, Side::Start) {
            Some(slice) => Some(SUnsafeCell { slice }),
            None => None,
        }
    }

    /// The persistable pointer to this box's cell.
    pub fn as_ptr(&self) -> (r: u64)
        ensures
            r == self.slice.ptr,
    {
        self.slice.get_ptr()
    }

    /// Give the box's cell back to the allocator, consuming the handle.
    pub fn drop(self, mem: &mut Memory, allocator: &StableMemoryAllocator)
        -> (r: Result<(), AllocError>)
        requires
            self.wf_in(old(mem)@),
            allocator.wf_in(old(mem)@),
            old(mem).wf(),
            self.slice.ptr >= allocator.data_start(),
        ensures
            final(mem).wf(),
            final(mem).max_pages_spec() == old(mem).max_pages_spec(),
            allocator.wf_in(final(mem)@),
            allocator.config_preserved(old(mem)@, final(mem)@),
            r matches Ok(u) ==> allocator.allocated_size(final(mem)@)
                == allocator.allocated_size(old(mem)@) - self.slice.total_spec(),
            r matches Err(e) ==> e == AllocError::InvariantViolation,
    {
        allocator.deallocate(mem, self.slice)
    }
}

} // verus!
