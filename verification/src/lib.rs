//! A persistent dynamic memory allocator over a growable, linearly-addressed
//! byte region, together with the clients built on top of it: a byte cell and
//! a binary heap.
//!
//! All allocator metadata lives inside the backing region itself at well-known
//! offsets, so a fresh process can re-attach to an existing region and keep
//! operating without external bookkeeping. Cells carry two-sided boundary
//! tags (`[header word | payload | footer word]`, header == footer), free
//! cells are kept in segregated doubly-linked lists indexed by the power of
//! two of their payload size, and immediate neighbor coalescing keeps two
//! free cells from ever sitting side by side.

pub mod mem_context;
pub mod s_slice;
pub mod allocator;
pub mod binary_heap;
pub mod s_unsafe_cell;

use vstd::prelude::*;

verus! {

/// Size of one page of the backing region, in bytes.
pub const PAGE_SIZE_BYTES: u64 = 65536;

/// Width of a persisted pointer word, in bytes.
pub const PTR_SIZE: u64 = 8;

/// Width of one boundary tag (header or footer word) of a cell, in bytes.
pub const CELL_META_SIZE: u64 = 8;

/// Smallest payload a cell may have: room for the two in-band free-list
/// pointers of a freed cell.
pub const CELL_MIN_SIZE: u64 = 16;

/// Sentinel pointer value marking an empty list head or absent link.
pub const EMPTY_PTR: u64 = u64::MAX;

/// Highest bit of a boundary tag: the allocated flag.
pub const ALLOCATED_BIT: u64 = 0x8000_0000_0000_0000;

/// The remaining bits of a boundary tag: the payload size.
pub const SIZE_MASK: u64 = 0x7fff_ffff_ffff_ffff;

/// Number of segregated size classes.
pub const SEG_CLASS_PTRS_COUNT: u64 = 60;

/// Number of opaque user pointers persisted in the allocator header.
pub const CUSTOM_DATA_PTRS_COUNT: u64 = 4;

/// Default free-buffer target, in pages.
pub const DEFAULT_MAX_ALLOCATION_PAGES: u64 = 180;

/// Default hard cap on total pages; zero means unlimited.
pub const DEFAULT_MAX_GROW_PAGES: u64 = 0;

} // verus!
