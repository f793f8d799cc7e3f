//! The backing store: a growable, linearly-addressed, page-granular byte
//! region. The allocator keeps every piece of its state inside one of these.
//!
//! The region is byte-addressed and zero-based, grows only at the tail in
//! whole pages of [`crate::PAGE_SIZE_BYTES`] bytes, and new pages arrive
//! zeroed. A hard page cap can be set at construction so that a refused
//! growth (the host saying no) can be exercised.

use vstd::prelude::*;
use vstd::bytes::{spec_u64_from_le_bytes, spec_u64_to_le_bytes, u64_from_le_bytes, u64_to_le_bytes, lemma_auto_spec_u64_to_from_le_bytes};
use crate::{PAGE_SIZE_BYTES, SIZE_MASK};

verus! {

/// The backing store refused to grow: the page cap would be passed.
#[derive(Debug, Clone, Copy, PartialEq, Eq, Structural)]
pub struct OutOfMemory;

/// The little-endian word stored at `off .. off + 8` of a byte region.
pub open spec fn word_at(m: Seq<u8>, off: int) -> u64 {
    spec_u64_from_le_bytes(m.subrange(off, off + 8))
}

/// Two regions of equal length that agree on `off .. off + 8` hold the same
/// word there.
pub proof fn lemma_word_at_frame(m1: Seq<u8>, m2: Seq<u8>, off: int)
    requires
        m1.len() == m2.len(),
        0 <= off,
        off + 8 <= m1.len(),
        forall|i: int| off <= i < off + 8 ==> m2[i] == m1[i],
    ensures
        word_at(m2, off) == word_at(m1, off),
{
    assert(m2.subrange(off, off + 8) =~= m1.subrange(off, off + 8));
}

/// The backing store. `bytes` is the region itself; `max_pages` is the cap
/// past which `grow` is refused.
pub struct Memory {
    bytes: Vec<u8>,
    max_pages: u64,
}

impl View for Memory {
    type V = Seq<u8>;

    closed spec fn view(&self) -> Seq<u8> {
        self.bytes@
    }
}

impl Memory {
    /// The region always holds a whole number of pages, never more than the
    /// cap allows, and never more than a `u64` of bytes can address.
    pub closed spec fn wf(self) -> bool {
        &&& self@.len() % (PAGE_SIZE_BYTES as nat) == 0
        &&& self@.len() <= self.max_pages * PAGE_SIZE_BYTES
        &&& self@.len() <= usize::MAX
        &&& self@.len() <= SIZE_MASK
    }

    /// What well-formedness guarantees about the region, for callers that
    /// cannot see into it: page granularity, and a length small enough that
    /// any contained payload size fits the 63-bit size field of a tag.
    pub proof fn lemma_wf_bounds(self)
        requires
            self.wf(),
        ensures
            self@.len() % (PAGE_SIZE_BYTES as nat) == 0,
            self@.len() <= usize::MAX,
            self@.len() <= SIZE_MASK,
    {
    }

    /// The page cap this store was built with.
    pub closed spec fn max_pages_spec(self) -> u64 {
        self.max_pages
    }

    /// A fresh, empty store whose cap is the largest page count whose byte
    /// total a boundary tag's size field can hold.
    pub fn new() -> (r: Memory)
        ensures
            r.wf(),
            r@.len() == 0,
            r.max_pages_spec() == SIZE_MASK / PAGE_SIZE_BYTES,
    {
        Memory { bytes: Vec::new(), max_pages: SIZE_MASK / PAGE_SIZE_BYTES }
    }

    /// A fresh, empty store that will refuse to grow past `max_pages` pages.
    pub fn with_limit(max_pages: u64) -> (r: Memory)
        ensures
            r.wf(),
            r@.len() == 0,
            r.max_pages_spec() == max_pages,
    {
        Memory { bytes: Vec::new(), max_pages }
    }

    /// Drop every page, returning the store to its empty state.
    pub fn clear(&mut self)
        ensures
            final(self).wf(),
            final(self)@.len() == 0,
            final(self).max_pages_spec() == old(self).max_pages_spec(),
    {
        self.bytes = Vec::new();
    }

    /// The length of the region in bytes.
    pub fn len_bytes(&self) -> (r: u64)
        ensures
            r == self@.len(),
    {
        let n: usize = self.bytes.len();
        n as u64
    }

    /// How many pages the store currently holds.
    pub fn size_pages(&self) -> (r: u64)
        requires
            self.wf(),
        ensures
            r * PAGE_SIZE_BYTES == self@.len(),
    {
        proof {
            assert(self@.len() <= usize::MAX <= u64::MAX);
        }
        let n: usize = self.bytes.len();
        let r: u64 = (n as u64) / PAGE_SIZE_BYTES;
        proof {
            let len0: nat = self@.len();
            assert(len0 % (PAGE_SIZE_BYTES as nat) == 0);
            assert(r * PAGE_SIZE_BYTES == len0) by (nonlinear_arith)
                requires
                    r == (len0 as u64) / PAGE_SIZE_BYTES,
                    len0 % (PAGE_SIZE_BYTES as nat) == 0,
                    len0 <= u64::MAX,
                    PAGE_SIZE_BYTES == 65536,
            ;
        }
        r
    }

    /// Append `new_pages` zeroed pages at the tail. Returns the previous page
    /// count on success; refuses (returning the store untouched) exactly when
    /// the cap, or the machine's address space, would be passed.
    pub fn grow(&mut self, new_pages: u64) -> (r: Result<u64, OutOfMemory>)
        requires
            old(self).wf(),
        ensures
            final(self).wf(),
            final(self).max_pages_spec() == old(self).max_pages_spec(),
            match r {
                Ok(prev) => {
                    &&& prev * PAGE_SIZE_BYTES == old(self)@.len()
                    &&& final(self)@.len() == old(self)@.len() + new_pages * PAGE_SIZE_BYTES
                    &&& final(self)@.subrange(0, old(self)@.len() as int) == old(self)@
                    &&& forall|i: int|
                        old(self)@.len() <= i < final(self)@.len() ==> final(self)@[i] == 0u8
                    &&& old(self)@.len() / (PAGE_SIZE_BYTES as nat) + new_pages
                        <= old(self).max_pages_spec()
                    &&& old(self)@.len() + new_pages * PAGE_SIZE_BYTES <= usize::MAX
                    &&& old(self)@.len() + new_pages * PAGE_SIZE_BYTES <= SIZE_MASK
                },
                Err(_) => {
                    &&& *final(self) == *old(self)
                    &&& (old(self)@.len() / (PAGE_SIZE_BYTES as nat) + new_pages
                        > old(self).max_pages_spec()
                        || old(self)@.len() + new_pages * PAGE_SIZE_BYTES > usize::MAX
                        || old(self)@.len() + new_pages * PAGE_SIZE_BYTES > SIZE_MASK)
                },
            },
    {
        let prev: u64 = self.size_pages();
        let ghost len0: nat = old(self)@.len();
        let ghost cap: u64 = old(self).max_pages;
        proof {
            assert(prev == len0 / (PAGE_SIZE_BYTES as nat)) by (nonlinear_arith)
                requires
                    prev * PAGE_SIZE_BYTES == len0,
                    PAGE_SIZE_BYTES == 65536,
            ;
            assert(prev <= cap) by (nonlinear_arith)
                requires
                    prev * PAGE_SIZE_BYTES == len0,
                    len0 <= cap * PAGE_SIZE_BYTES,
                    PAGE_SIZE_BYTES == 65536,
            ;
        }
        if new_pages > self.max_pages - prev {
            return Err(OutOfMemory);
        }
        let total: u64 = prev + new_pages;
        if total > (usize::MAX as u64) / PAGE_SIZE_BYTES {
            proof {
                assert(len0 + new_pages * PAGE_SIZE_BYTES > usize::MAX)
                    by (nonlinear_arith)
                    requires
                        prev * PAGE_SIZE_BYTES == len0,
                        prev + new_pages > (usize::MAX as u64) / PAGE_SIZE_BYTES,
                        PAGE_SIZE_BYTES == 65536,
                ;
            }
            return Err(OutOfMemory);
        }
        if total > SIZE_MASK / PAGE_SIZE_BYTES {
            proof {
                assert(len0 + new_pages * PAGE_SIZE_BYTES > SIZE_MASK)
                    by (nonlinear_arith)
                    requires
                        prev * PAGE_SIZE_BYTES == len0,
                        prev + new_pages > SIZE_MASK / PAGE_SIZE_BYTES,
                        PAGE_SIZE_BYTES == 65536,
                        SIZE_MASK == 0x7fff_ffff_ffff_ffff,
                ;
            }
            return Err(OutOfMemory);
        }
        let add_bytes: u64 = new_pages * PAGE_SIZE_BYTES;
        proof {
            assert(new_pages * PAGE_SIZE_BYTES <= u64::MAX
                && len0 + new_pages * PAGE_SIZE_BYTES <= usize::MAX
                && len0 + new_pages * PAGE_SIZE_BYTES <= SIZE_MASK)
                by (nonlinear_arith)
                requires
                    prev * PAGE_SIZE_BYTES == len0,
                    prev + new_pages <= (usize::MAX as u64) / PAGE_SIZE_BYTES,
                    prev + new_pages <= SIZE_MASK / PAGE_SIZE_BYTES,
                    PAGE_SIZE_BYTES == 65536,
                    SIZE_MASK == 0x7fff_ffff_ffff_ffff,
                    usize::MAX <= u64::MAX,
            ;
        }
        let mut k: u64 = 0;
        while k < add_bytes
            invariant
                k <= add_bytes,
                self.max_pages == old(self).max_pages,
                add_bytes == new_pages * PAGE_SIZE_BYTES,
                old(self)@.len() + add_bytes <= usize::MAX,
                self@.len() == old(self)@.len() + k,
                self@.subrange(0, old(self)@.len() as int) == old(self)@,
                forall|i: int| old(self)@.len() <= i < self@.len() ==> self@[i] == 0u8,
            decreases add_bytes - k,
        {
            self.bytes.push(0u8);
            k = k + 1;
            proof {
                assert(self@.subrange(0, old(self)@.len() as int) =~= old(self)@);
            }
        }
        proof {
            let len1: nat = self@.len();
            assert(len1 % (PAGE_SIZE_BYTES as nat) == 0
                && len1 <= cap * PAGE_SIZE_BYTES)
                by (nonlinear_arith)
                requires
                    len1 == len0 + new_pages * PAGE_SIZE_BYTES,
                    prev * PAGE_SIZE_BYTES == len0,
                    prev + new_pages <= cap,
                    PAGE_SIZE_BYTES == 65536,
            ;
        }
        Ok(prev)
    }

    /// Read `len` bytes starting at `offset`.
    pub fn read(&self, offset: u64, len: u64) -> (r: Vec<u8>)
        requires
            offset + len <= self@.len(),
        ensures
            r@ == self@.subrange(offset as int, offset as int + len as int),
            r@.len() == len,
    {
        let mut r: Vec<u8> = Vec::new();
        let mut i: u64 = 0;
        let n: usize = self.bytes.len();
        proof {
            assert(self@.len() == n <= usize::MAX);
        }
        while i < len
            invariant
                i <= len,
                offset + len <= self@.len(),
                self@.len() <= usize::MAX,
                r@.len() == i,
                forall|j: int| 0 <= j < i ==> r@[j] == self@[offset + j],
            decreases len - i,
        {
            let b: u8 = self.bytes[(offset + i) as usize];
            r.push(b);
            i = i + 1;
        }
        proof {
            assert(r@ =~= self@.subrange(offset as int, offset as int + len as int));
        }
        r
    }

    /// Write `data` at `offset`, leaving every byte outside
    /// `offset .. offset + data.len()` as it was.
    pub fn write(&mut self, offset: u64, data: &[u8])
        requires
            offset + data@.len() <= old(self)@.len(),
        ensures
            final(self).wf() == old(self).wf(),
            final(self).max_pages_spec() == old(self).max_pages_spec(),
            final(self)@.len() == old(self)@.len(),
            forall|i: int|
                0 <= i < old(self)@.len() && !(offset <= i < offset + data@.len())
                    ==> final(self)@[i] == old(self)@[i],
            final(self)@.subrange(offset as int, offset as int + data@.len() as int) == data@,
    {
        let n: usize = data.len();
        let m: usize = self.bytes.len();
        proof {
            assert(self@.len() == m <= usize::MAX);
        }
        let mut i: usize = 0;
        while i < n
            invariant
                i <= n,
                n == data@.len(),
                offset + n <= self@.len(),
                self@.len() <= usize::MAX,
                self@.len() == old(self)@.len(),
                self.max_pages == old(self).max_pages,
                forall|j: int|
                    0 <= j < self@.len() && !(offset <= j < offset + i)
                        ==> self@[j] == old(self)@[j],
                forall|j: int| 0 <= j < i ==> self@[offset + j] == data@[j],
            decreases n - i,
        {
            let b: u8 = data[i];
            self.bytes[(offset as usize) + i] = b;
            i = i + 1;
        }
        proof {
            assert(final(self)@.subrange(offset as int, offset as int + data@.len() as int)
                =~= data@);
        }
    }

    /// Read the little-endian word stored at `offset`.
    pub fn read_word(&self, offset: u64) -> (r: u64)
        requires
            offset + 8 <= self@.len(),
        ensures
            r == word_at(self@, offset as int),
    {
        let buf: Vec<u8> = self.read(offset, 8);
        u64_from_le_bytes(buf.as_slice())
    }

    /// Store `w` as a little-endian word at `offset`, leaving every byte
    /// outside `offset .. offset + 8` as it was.
    pub fn write_word(&mut self, offset: u64, w: u64)
        requires
            offset + 8 <= old(self)@.len(),
        ensures
            final(self).wf() == old(self).wf(),
            final(self).max_pages_spec() == old(self).max_pages_spec(),
            final(self)@.len() == old(self)@.len(),
            forall|i: int|
                0 <= i < old(self)@.len() && !(offset <= i < offset + 8)
                    ==> final(self)@[i] == old(self)@[i],
            word_at(final(self)@, offset as int) == w,
    {
        let buf: Vec<u8> = u64_to_le_bytes(w);
        self.write(offset, buf.as_slice());
        proof {
            lemma_auto_spec_u64_to_from_le_bytes();
            assert(final(self)@.subrange(offset as int, offset as int + 8)
                == spec_u64_to_le_bytes(w));
        }
    }
}

} // verus!
