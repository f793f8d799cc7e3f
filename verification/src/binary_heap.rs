//! A binary heap persisted in the backing store, built as a client of the
//! allocator: its elements are machine words laid out back to back in one
//! allocated cell, which is reallocated to twice its footprint whenever it
//! fills up.

use vstd::prelude::*;
use vstd::assert_seqs_equal;
use vstd::seq_lib::{to_multiset_build, to_multiset_update};
use crate::mem_context::{Memory, word_at, lemma_word_at_frame};
use crate::s_slice::SSlice;
use crate::allocator::{AllocError, StableMemoryAllocator};
use crate::{ALLOCATED_BIT, CELL_MIN_SIZE, PTR_SIZE};

verus! {

/// Whether the heap surfaces its smallest or its largest element.
#[derive(Clone, Copy, PartialEq, Eq, Structural, Debug)]
pub enum SHeapType {
    Min,
    Max,
}

/// `a` may sit above `b` in a heap of type `ty`.
pub open spec fn spec_heap_le(ty: SHeapType, a: u64, b: u64) -> bool {
    match ty {
        SHeapType::Min => a <= b,
        SHeapType::Max => a >= b,
    }
}

/// The heap shape invariant: every element may sit above its two children.
pub open spec fn spec_is_heap(ty: SHeapType, v: Seq<u64>) -> bool {
    forall|i: int| 1 <= i < v.len() ==> spec_heap_le(ty, v[(i - 1) / 2], #[trigger] v[i])
}

/// The heap shape except possibly between `idx` and its parent: all other
/// parent links hold, and the children of `idx` could even live with the
/// parent of `idx` above them. This is what sifting up maintains.
pub open spec fn spec_is_heap_except_up(ty: SHeapType, v: Seq<u64>, idx: int) -> bool {
    &&& forall|i: int|
        1 <= i < v.len() && i != idx ==> spec_heap_le(ty, v[(i - 1) / 2], #[trigger] v[i])
    &&& forall|i: int|
        1 <= i < v.len() && idx >= 1 && (i - 1) / 2 == idx
            ==> spec_heap_le(ty, v[(idx - 1) / 2], #[trigger] v[i])
}

/// The heap shape except possibly between `idx` and its children: all other
/// parent links hold, and the children of `idx` could live with the parent
/// of `idx` above them. This is what sifting down maintains.
pub open spec fn spec_is_heap_except_down(ty: SHeapType, v: Seq<u64>, idx: int) -> bool {
    &&& forall|i: int|
        1 <= i < v.len() && (i - 1) / 2 != idx ==> spec_heap_le(ty, v[(i - 1) / 2], #[trigger] v[i])
    &&& forall|i: int|
        1 <= i < v.len() && (i - 1) / 2 == idx && idx >= 1
            ==> spec_heap_le(ty, v[(idx - 1) / 2], #[trigger] v[i])
}

/// In a well-shaped heap the root may sit above every element.
pub proof fn lemma_heap_root_extremal(ty: SHeapType, v: Seq<u64>, i: int)
    requires
        spec_is_heap(ty, v),
        0 <= i < v.len(),
    ensures
        spec_heap_le(ty, v[0], v[i]),
    decreases i,
{
    if i > 0 {
        lemma_heap_root_extremal(ty, v, (i - 1) / 2);
    }
}

/// Exchanging two distinct positions of a sequence leaves its multiset of
/// elements as it was.
pub proof fn lemma_swap_preserves_multiset(s: Seq<u64>, i: int, j: int)
    requires
        0 <= i < s.len(),
        0 <= j < s.len(),
        i != j,
    ensures
        s.update(i, s[j]).update(j, s[i]).to_multiset() == s.to_multiset(),
{
    broadcast use vstd::multiset::group_multiset_axioms;
    broadcast use vstd::seq_lib::group_to_multiset_ensures;
    to_multiset_update(s, i, s[j]);
    let s1 = s.update(i, s[j]);
    to_multiset_update(s1, j, s[i]);
    assert(s.contains(s[i]) && s.contains(s[j]));
    assert(s.to_multiset().count(s[i]) > 0 && s.to_multiset().count(s[j]) > 0);
    assert(s.update(i, s[j]).update(j, s[i]).to_multiset() =~= s.to_multiset());
}

/// A binary heap of machine words persisted in one allocated cell. The
/// handle remembers the heap's polarity, its cell, and how many of the
/// cell's word slots are occupied.
pub struct SBinaryHeap {
    pub ty: SHeapType,
    pub slice: SSlice,
    pub len: u64,
}

impl SBinaryHeap {
    /// The elements as a sequence: the first `len` little-endian words of
    /// the cell's payload.
    pub open spec fn view_of(self, m: Seq<u8>) -> Seq<u64> {
        Seq::new(
            self.len as nat,
            |i: int| word_at(m, self.slice.payload_off() + i * PTR_SIZE),
        )
    }

    /// The handle mirrors region `m`: the cell is sound and allocated, and
    /// all occupied slots fit its payload.
    pub open spec fn wf_in(self, m: Seq<u8>) -> bool {
        &&& self.slice.wf_in(m)
        &&& self.slice.allocated
        &&& self.len * PTR_SIZE <= self.slice.size
    }

    /// Create an empty heap of the given polarity, backed by a fresh
    /// minimal cell.
    pub fn new(
        ty: SHeapType,
        mem: &mut Memory,
        allocator: &StableMemoryAllocator,
        hook_pending: &mut bool,
    ) -> (r: Result<SBinaryHeap, AllocError>)
        requires
            allocator.wf_in(old(mem)@),
            old(mem).wf(),
        ensures
            final(mem).wf(),
            final(mem).max_pages_spec() == old(mem).max_pages_spec(),
            allocator.wf_in(final(mem)@),
            allocator.config_preserved(old(mem)@, final(mem)@),
            match r {
                Ok(h) => {
                    &&& h.wf_in(final(mem)@)
                    &&& h.ty == ty
                    &&& h.len == 0
                    &&& h.view_of(final(mem)@) == Seq::<u64>::empty()
                    &&& h.slice.ptr >= allocator.data_start()
                },
                Err(e) => true,
            },
    {
        let slice = match allocator.allocate(mem, CELL_MIN_SIZE, hook_pending) {
            Ok(c) => c,
            Err(e) => {
                return Err(e);
            },
        };
        let h = SBinaryHeap { ty, slice, len: 0 };
        proof {
            assert(h.view_of(mem@) =~= Seq::<u64>::empty());
        }
        Ok(h)
    }

    /// How many elements the heap holds.
    pub fn len(&self) -> (r: u64)
        ensures
            r == self.len,
    {
        self.len
    }

    /// Whether the heap holds nothing.
    pub fn is_empty(&self) -> (r: bool)
        ensures
            r == (self.len == 0),
    {
        self.len == 0
    }

    /// Read the element in slot `idx`.
    fn get_at(&self, mem: &Memory, idx: u64) -> (r: u64)
        requires
            self.wf_in(mem@),
            idx < self.len,
        ensures
            r == self.view_of(mem@)[idx as int],
    {
        self.slice._read_word(mem, idx * PTR_SIZE)
    }

    /// Overwrite the element in slot `idx`. Nothing outside that one word
    /// changes.
    fn set_at(&self, mem: &mut Memory, idx: u64, v: u64)
        requires
            self.wf_in(old(mem)@),
            idx < self.len,
        ensures
            self.wf_in(final(mem)@),
            final(mem).wf() == old(mem).wf(),
            final(mem).max_pages_spec() == old(mem).max_pages_spec(),
            final(mem)@.len() == old(mem)@.len(),
            self.view_of(final(mem)@) == self.view_of(old(mem)@).update(idx as int, v),
            forall|i: int|
                0 <= i < old(mem)@.len()
                    && !(self.slice.payload_off() + idx * PTR_SIZE <= i
                        < self.slice.payload_off() + idx * PTR_SIZE + PTR_SIZE)
                    ==> final(mem)@[i] == old(mem)@[i],
    {
        self.slice._write_word(mem, idx * PTR_SIZE, v);
        proof {
            assert forall|k: int| 0 <= k < self.len && k != idx
                implies self.view_of(final(mem)@)[k] == self.view_of(old(mem)@)[k]
            by {
                lemma_word_at_frame(
                    old(mem)@,
                    final(mem)@,
                    self.slice.payload_off() + k * PTR_SIZE,
                );
            }
            assert(self.view_of(final(mem)@)
                =~= self.view_of(old(mem)@).update(idx as int, v));
        }
    }

    /// Exchange the elements of two distinct slots.
    fn swap(&self, mem: &mut Memory, i: u64, j: u64)
        requires
            self.wf_in(old(mem)@),
            i < self.len,
            j < self.len,
            i != j,
        ensures
            self.wf_in(final(mem)@),
            final(mem).wf() == old(mem).wf(),
            final(mem).max_pages_spec() == old(mem).max_pages_spec(),
            final(mem)@.len() == old(mem)@.len(),
            self.view_of(final(mem)@) == self.view_of(old(mem)@)
                .update(i as int, self.view_of(old(mem)@)[j as int])
                .update(j as int, self.view_of(old(mem)@)[i as int]),
            self.view_of(final(mem)@).to_multiset() == self.view_of(old(mem)@).to_multiset(),
            forall|k: int|
                0 <= k < old(mem)@.len()
                    && !(self.slice.payload_off() <= k
                        < self.slice.payload_off() + self.slice.size)
                    ==> final(mem)@[k] == old(mem)@[k],
    {
        let a: u64 = self.get_at(mem, i);
        let b: u64 = self.get_at(mem, j);
        self.set_at(mem, i, b);
        self.set_at(mem, j, a);
        proof {
            lemma_swap_preserves_multiset(self.view_of(old(mem)@), i as int, j as int);
        }
    }

    /// The element that may sit above all others, without removing it: the
    /// smallest for a min-heap, the largest for a max-heap.
    pub fn peek(&self, mem: &Memory) -> (r: Option<u64>)
        requires
            self.wf_in(mem@),
            spec_is_heap(self.ty, self.view_of(mem@)),
        ensures
            self.len == 0 ==> r is None,
            self.len > 0 ==> r == Some(self.view_of(mem@)[0]),
            r matches Some(x) ==> forall|i: int|
                0 <= i < self.len ==> spec_heap_le(self.ty, x, self.view_of(mem@)[i]),
    {
        if self.len == 0 {
            return None;
        }
        proof {
            assert forall|i: int| 0 <= i < self.len
                implies spec_heap_le(self.ty, self.view_of(mem@)[0], self.view_of(mem@)[i])
            by {
                lemma_heap_root_extremal(self.ty, self.view_of(mem@), i);
            }
        }
        Some(self.get_at(mem, 0))
    }

    /// Add an element, growing the backing cell when it is full, and sift
    /// it up to its place. The heap shape is kept and the multiset of
    /// elements gains exactly `elem`.
    #[verifier::loop_isolation(false)]
    #[verifier::rlimit(60)]
    pub fn push(
        &mut self,
        mem: &mut Memory,
        allocator: &StableMemoryAllocator,
        elem: u64,
        hook_pending: &mut bool,
    ) -> (r: Result<(), AllocError>)
        requires
            old(self).wf_in(old(mem)@),
            spec_is_heap(old(self).ty, old(self).view_of(old(mem)@)),
            allocator.wf_in(old(mem)@),
            old(mem).wf(),
            old(self).slice.ptr >= allocator.data_start(),
            old(self).len < 0x1000_0000_0000_0000u64,
        ensures
            final(mem).wf(),
            final(mem).max_pages_spec() == old(mem).max_pages_spec(),
            final(self).ty == old(self).ty,
            allocator.wf_in(final(mem)@),
            allocator.config_preserved(old(mem)@, final(mem)@),
            match r {
                Ok(u) => {
                    &&& final(self).wf_in(final(mem)@)
                    &&& final(self).len == old(self).len + 1
                    &&& final(self).slice.ptr >= allocator.data_start()
                    &&& spec_is_heap(final(self).ty, final(self).view_of(final(mem)@))
                    &&& final(self).view_of(final(mem)@).to_multiset()
                        == old(self).view_of(old(mem)@).to_multiset().insert(elem)
                },
                Err(e) => true,
            },
    {
        let ghost v0: Seq<u64> = self.view_of(mem@);
        let ghost m00: Seq<u8> = mem@;
        let cap: u64 = self.slice.get_size_bytes() / PTR_SIZE;
        if self.len == cap {
            if self.slice.get_size_bytes() >= ALLOCATED_BIT / 2 {
                return Err(AllocError::OutOfMemory);
            }
            let new_size: u64 = self.slice.get_size_bytes() * 2;
            let old_slice: SSlice = self.slice;
            let new_slice = match allocator.reallocate(mem, old_slice, new_size, hook_pending) {
                Ok(c) => c,
                Err(e) => {
                    return Err(e);
                },
            };
            proof {
                assert forall|k: int| 0 <= k < self.len
                    implies #[trigger] word_at(mem@, new_slice.payload_off() + k * PTR_SIZE)
                        == word_at(m00, old_slice.payload_off() + k * PTR_SIZE)
                by {
                    assert_seqs_equal!(
                        mem@.subrange(
                            new_slice.payload_off() + k * PTR_SIZE,
                            new_slice.payload_off() + k * PTR_SIZE + PTR_SIZE,
                        ) == m00.subrange(
                            old_slice.payload_off() + k * PTR_SIZE,
                            old_slice.payload_off() + k * PTR_SIZE + PTR_SIZE,
                        ),
                        t => {
                            let q: int = k * PTR_SIZE + t;
                            assert(0 <= q < old_slice.size && q < new_slice.size);
                            assert(new_slice.payload(mem@)[q]
                                == old_slice.payload(m00)[q]);
                            assert(new_slice.payload(mem@)[q]
                                == mem@[new_slice.payload_off() + q]);
                            assert(old_slice.payload(m00)[q]
                                == m00[old_slice.payload_off() + q]);
                        }
                    );
                }
            }
            self.slice = new_slice;
            proof {
                assert(self.view_of(mem@) =~= v0);
            }
        }
        let ghost m_grown: Seq<u8> = mem@;
        let idx0: u64 = self.len;
        self.slice._write_word(mem, idx0 * PTR_SIZE, elem);
        self.len = self.len + 1;
        proof {
            assert forall|k: int| 0 <= k < idx0
                implies #[trigger] self.view_of(mem@)[k] == v0[k]
            by {
                lemma_word_at_frame(m_grown, mem@, self.slice.payload_off() + k * PTR_SIZE);
            }
            assert(self.view_of(mem@) =~= v0.push(elem));
            to_multiset_build(v0, elem);
            assert(spec_is_heap_except_up(self.ty, self.view_of(mem@), idx0 as int));
            crate::allocator::lemma_header_frame(*allocator, m_grown, mem@,
                allocator.base(), allocator.base());
        }
        let ghost m_app: Seq<u8> = mem@;
        let mut idx: u64 = idx0;
        while idx > 0
            invariant
                self.wf_in(mem@),
                mem.wf(),
                mem.max_pages_spec() == old(mem).max_pages_spec(),
                mem@.len() == m_app.len(),
                idx < self.len,
                self.view_of(mem@).to_multiset() == v0.to_multiset().insert(elem),
                spec_is_heap_except_up(self.ty, self.view_of(mem@), idx as int),
                forall|k: int|
                    0 <= k < m_app.len()
                        && !(self.slice.payload_off() <= k
                            < self.slice.payload_off() + self.slice.size)
                        ==> mem@[k] == m_app[k],
            decreases idx,
        {
            let parent_idx: u64 = (idx - 1) / 2;
            let child: u64 = self.get_at(mem, idx);
            let par: u64 = self.get_at(mem, parent_idx);
            let out_of_place: bool = match self.ty {
                SHeapType::Min => child < par,
                SHeapType::Max => child > par,
            };
            if out_of_place {
                let ghost vb: Seq<u64> = self.view_of(mem@);
                self.swap(mem, parent_idx, idx);
                proof {
                    let va = self.view_of(mem@);
                    assert forall|i: int|
                        1 <= i < va.len() && i != parent_idx
                        implies spec_heap_le(self.ty, va[(i - 1) / 2], #[trigger] va[i])
                    by {
                        if i == idx {
                        } else if (i - 1) / 2 == idx {
                            assert(spec_heap_le(self.ty, vb[(idx - 1) as int / 2], vb[i]));
                        } else if (i - 1) / 2 == parent_idx {
                            assert(spec_heap_le(self.ty, vb[(i - 1) / 2], vb[i]));
                        } else {
                            assert(spec_heap_le(self.ty, vb[(i - 1) / 2], vb[i]));
                        }
                    }
                }
                idx = parent_idx;
            } else {
                proof {
                    assert(spec_is_heap(self.ty, self.view_of(mem@)));
                }
                break;
            }
        }
        proof {
            assert(spec_is_heap(self.ty, self.view_of(mem@)));
            crate::allocator::lemma_header_frame(*allocator, m_app, mem@,
                allocator.base(), allocator.base());
        }
        Ok(())
    }

    /// Remove and return the element that may sit above all others: the
    /// last element moves to the root and sifts down. The heap shape is
    /// kept and the multiset of elements loses exactly the old root.
    #[verifier::loop_isolation(false)]
    #[verifier::rlimit(60)]
    pub fn pop(&mut self, mem: &mut Memory) -> (r: Option<u64>)
        requires
            old(self).wf_in(old(mem)@),
            spec_is_heap(old(self).ty, old(self).view_of(old(mem)@)),
            old(mem).wf(),
        ensures
            final(self).ty == old(self).ty,
            final(self).slice == old(self).slice,
            final(self).wf_in(final(mem)@),
            final(mem).wf(),
            final(mem).max_pages_spec() == old(mem).max_pages_spec(),
            final(mem)@.len() == old(mem)@.len(),
            forall|k: int|
                0 <= k < old(mem)@.len()
                    && !(old(self).slice.payload_off() <= k
                        < old(self).slice.payload_off() + old(self).slice.size)
                    ==> final(mem)@[k] == old(mem)@[k],
            match r {
                None => {
                    &&& old(self).len == 0
                    &&& final(mem)@ == old(mem)@
                    &&& final(self).len == 0
                },
                Some(x) => {
                    &&& old(self).len > 0
                    &&& x == old(self).view_of(old(mem)@)[0]
                    &&& (forall|i: int|
                        0 <= i < old(self).len
                            ==> spec_heap_le(old(self).ty, x, old(self).view_of(old(mem)@)[i]))
                    &&& final(self).len == old(self).len - 1
                    &&& spec_is_heap(final(self).ty, final(self).view_of(final(mem)@))
                    &&& final(self).view_of(final(mem)@).to_multiset()
                        == old(self).view_of(old(mem)@).to_multiset().remove(x)
                },
            },
    {
        let ghost v0: Seq<u64> = self.view_of(mem@);
        proof {
            assert forall|i: int| 0 <= i < self.len
                implies spec_heap_le(self.ty, v0[0], v0[i])
            by {
                if self.len > 0 {
                    lemma_heap_root_extremal(self.ty, v0, i);
                }
            }
        }
        if self.len == 0 {
            return None;
        }
        let root: u64 = self.get_at(mem, 0);
        if self.len == 1 {
            self.len = 0;
            proof {
                assert(self.view_of(mem@) =~= Seq::<u64>::empty());
                assert(v0 =~= Seq::<u64>::empty().push(root));
                to_multiset_build(Seq::<u64>::empty(), root);
                assert(self.view_of(mem@).to_multiset() =~= v0.to_multiset().remove(root));
            }
            return Some(root);
        }
        let last_idx: u64 = self.len - 1;
        self.swap(mem, 0, last_idx);
        let ghost v_swapped: Seq<u64> = self.view_of(mem@);
        self.len = last_idx;
        proof {
            assert(self.view_of(mem@) =~= v_swapped.subrange(0, last_idx as int));
            assert(v_swapped =~= self.view_of(mem@).push(v_swapped[last_idx as int]));
            to_multiset_build(self.view_of(mem@), v_swapped[last_idx as int]);
            assert(v_swapped[last_idx as int] == v0[0]);
            assert(self.view_of(mem@).to_multiset() =~= v0.to_multiset().remove(root));
            assert(spec_is_heap_except_down(self.ty, self.view_of(mem@), 0));
        }
        let ghost m_cut: Seq<u8> = mem@;
        let mut idx: u64 = 0;
        let mut done: bool = false;
        while !done
            invariant
                self.wf_in(mem@),
                mem.wf(),
                mem.max_pages_spec() == old(mem).max_pages_spec(),
                mem@.len() == m_cut.len(),
                idx < self.len,
                self.len == last_idx,
                self.view_of(mem@).to_multiset() == v0.to_multiset().remove(root),
                spec_is_heap_except_down(self.ty, self.view_of(mem@), idx as int),
                done ==> spec_is_heap(self.ty, self.view_of(mem@)),
                forall|k: int|
                    0 <= k < m_cut.len()
                        && !(self.slice.payload_off() <= k
                            < self.slice.payload_off() + self.slice.size)
                        ==> mem@[k] == m_cut[k],
            decreases (self.len - idx) * 2 + (if done { 0int } else { 1int }),
        {
            let left: u64 = idx * 2 + 1;
            if left >= self.len {
                proof {
                    assert(spec_is_heap(self.ty, self.view_of(mem@)));
                }
                done = true;
                continue;
            }
            let right: u64 = left + 1;
            let mut ch: u64 = left;
            let mut chv: u64 = self.get_at(mem, left);
            if right < self.len {
                let rv: u64 = self.get_at(mem, right);
                let right_first: bool = match self.ty {
                    SHeapType::Min => rv < chv,
                    SHeapType::Max => rv > chv,
                };
                if right_first {
                    ch = right;
                    chv = rv;
                }
            }
            let cur: u64 = self.get_at(mem, idx);
            let in_place: bool = match self.ty {
                SHeapType::Min => cur <= chv,
                SHeapType::Max => cur >= chv,
            };
            if in_place {
                proof {
                    assert(spec_is_heap(self.ty, self.view_of(mem@)));
                }
                done = true;
                continue;
            }
            let ghost vb: Seq<u64> = self.view_of(mem@);
            self.swap(mem, idx, ch);
            proof {
                let va = self.view_of(mem@);
                assert forall|i: int|
                    1 <= i < va.len() && (i - 1) / 2 != ch
                    implies spec_heap_le(self.ty, va[(i - 1) / 2], #[trigger] va[i])
                by {
                    if i == ch {
                        assert(va[(i - 1) / 2] == vb[(i - 1) / 2] || (i - 1) / 2 == idx);
                    } else if i == idx {
                        assert(idx >= 1 ==> spec_heap_le(self.ty, vb[(idx - 1) as int / 2],
                            vb[i]));
                    } else if (i - 1) / 2 == idx {
                        assert(spec_heap_le(self.ty, vb[ch as int], vb[i]));
                    } else {
                        assert(spec_heap_le(self.ty, vb[(i - 1) / 2], vb[i]));
                    }
                }
                assert forall|i: int|
                    1 <= i < va.len() && (i - 1) / 2 == ch && ch >= 1
                    implies spec_heap_le(self.ty, va[(ch - 1) as int / 2], #[trigger] va[i])
                by {
                    assert(va[i] == vb[i]);
                    assert(spec_heap_le(self.ty, vb[ch as int], vb[i]));
                }
            }
            idx = ch;
        }
        Some(root)
    }

    /// Give the heap's cell back to the allocator, consuming the handle.
    pub fn drop(self, mem: &mut Memory, allocator: &StableMemoryAllocator)
        -> (r: Result<(), AllocError>)
        requires
            self.wf_in(old(mem)@),
            allocator.wf_in(old(mem)@),
            old(mem).wf(),
            self.slice.ptr >= allocator.data_start(),
        ensures
            final(mem).wf(),
            final(mem).max_pages_spec() == old(mem).max_pages_spec(),
            allocator.wf_in(final(mem)@),
            allocator.config_preserved(old(mem)@, final(mem)@),
            r matches Ok(u) ==> allocator.allocated_size(final(mem)@)
                == allocator.allocated_size(old(mem)@) - self.slice.total_spec(),
            r matches Err(e) ==> e == AllocError::InvariantViolation,
    {
        allocator.deallocate(mem, self.slice)
    }
}

} // verus!
