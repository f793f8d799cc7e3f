use stable_alloc::mem_context::Memory;
use stable_alloc::allocator::{
    get_seg_class_id, AllocError, StableMemoryAllocator, ALLOCATOR_SIZE, OFF_ALLOCATED, OFF_HEADS,
};
use stable_alloc::{CELL_META_SIZE, EMPTY_PTR, PTR_SIZE, SEG_CLASS_PTRS_COUNT};

#[test]
fn initialization_works_fine() {
    let mut mem = Memory::new();
    mem.grow(1).expect("Unable to grow");

    let sma = StableMemoryAllocator::init(&mut mem, 0);
    let free_memboxes: Vec<_> = (0..SEG_CLASS_PTRS_COUNT)
        .filter_map(|it| sma.get_seg_class_head(&mem, it as u32))
        .collect();

    assert_eq!(free_memboxes.len(), 1);
    let free_membox1 = free_memboxes[0];
    let (size1, allocated1) = free_membox1.get_meta();

    let sma = StableMemoryAllocator::reinit(&mem, 0).unwrap();
    let free_memboxes: Vec<_> = (0..SEG_CLASS_PTRS_COUNT)
        .filter_map(|it| sma.get_seg_class_head(&mem, it as u32))
        .collect();

    assert_eq!(free_memboxes.len(), 1);
    let free_membox2 = free_memboxes[0];
    let (size2, allocated2) = free_membox2.get_meta();

    assert_eq!(size1, size2);
    assert_eq!(allocated1, allocated2);
}

#[test]
fn allocation_works_fine() {
    let mut mem = Memory::new();
    mem.grow(1).expect("Unable to grow");
    let mut hook = false;

    let sma = StableMemoryAllocator::init(&mut mem, 0);
    sma.set_max_grow_pages(&mut mem, 0);

    let mut memboxes = vec![];

    // try to allocate 1000 MB
    for i in 0..1024 {
        let membox = sma.allocate(&mut mem, 1024, &mut hook).unwrap();

        assert!(membox.get_meta().0 >= 1024, "Invalid membox size at {}", i);

        memboxes.push(membox);
    }

    assert!(sma.get_allocated_size(&mem) >= 1024 * 1024);

    for i in 0..1024 {
        let mut membox = memboxes[i];
        membox = sma
            .reallocate(&mut mem, membox, 2 * 1024, &mut hook)
            .unwrap();

        assert!(
            membox.get_meta().0 >= 2 * 1024,
            "Invalid membox size at {}",
            i
        );

        memboxes[i] = membox;
    }

    assert!(sma.get_allocated_size(&mem) >= 2 * 1024 * 1024);

    for i in 0..1024 {
        let membox = memboxes[i];
        sma.deallocate(&mut mem, membox).unwrap();
    }

    assert_eq!(sma.get_allocated_size(&mem), 0);
}

#[test]
fn init_and_one_alloc_accounting() {
    // one page, no growth possible: every byte is accounted for by the two
    // counters and the header's own footprint
    let mut mem = Memory::new();
    mem.grow(1).expect("Unable to grow");
    let mut hook = false;

    let sma = StableMemoryAllocator::init(&mut mem, 0);
    sma.set_max_grow_pages(&mut mem, 1);

    let c = sma.allocate(&mut mem, 1024, &mut hook).unwrap();
    assert!(c.get_size_bytes() >= 1024);
    // at least the payload plus the two boundary tags
    assert!(sma.get_allocated_size(&mem) >= 1024 + 2 * CELL_META_SIZE);
    let header_total = ALLOCATOR_SIZE + 2 * CELL_META_SIZE;
    assert_eq!(
        sma.get_allocated_size(&mem) + sma.get_free_size(&mem) + header_total,
        65536
    );
}

#[test]
fn oom_fires_low_memory_hook_once() {
    // cap the region at two pages; the first allocation already wants the
    // full free-buffer target, so the one-shot notification fires at once,
    // and exactly once; once nothing fits any more, OutOfMemory comes back
    let mut mem = Memory::new();
    mem.grow(1).expect("Unable to grow");

    let sma = StableMemoryAllocator::init(&mut mem, 0);
    sma.set_max_grow_pages(&mut mem, 2);

    let mut fired: usize = 0;
    let mut last_err = None;
    for _ in 0..64 {
        let mut hook = false;
        match sma.allocate(&mut mem, 4096, &mut hook) {
            Ok(_) => {}
            Err(e) => {
                last_err = Some(e);
                break;
            }
        }
        if hook {
            fired += 1;
        }
    }
    assert_eq!(fired, 1);
    assert!(sma.get_on_low_executed_flag(&mem));
    assert_eq!(last_err, Some(AllocError::OutOfMemory));
}

#[test]
fn reattach_preserves_class_heads() {
    // the class-head table survives a restart byte for byte
    let mut mem = Memory::new();
    mem.grow(1).expect("Unable to grow");
    let mut hook = false;

    let sma = StableMemoryAllocator::init(&mut mem, 0);
    sma.set_max_grow_pages(&mut mem, 1);
    let c = sma.allocate(&mut mem, 512, &mut hook).unwrap();
    assert!(sma.get_allocated_size(&mem) > 0);
    let _ = c;

    let heads_before: Vec<u64> = (0..SEG_CLASS_PTRS_COUNT)
        .map(|i| mem.read_word(CELL_META_SIZE + OFF_HEADS + i * PTR_SIZE))
        .collect();

    // simulate a restart: drop the handle, re-attach from the bytes alone
    drop(sma);
    let sma = StableMemoryAllocator::reinit(&mem, 0).unwrap();

    let heads_after: Vec<u64> = (0..SEG_CLASS_PTRS_COUNT)
        .map(|i| mem.read_word(CELL_META_SIZE + OFF_HEADS + i * PTR_SIZE))
        .collect();
    assert_eq!(heads_before, heads_after);
    assert!(sma.get_allocated_size(&mem) > 0);
}

#[test]
fn reinit_rejects_bad_magic() {
    let mut mem = Memory::new();
    mem.grow(1).expect("Unable to grow");

    let _sma = StableMemoryAllocator::init(&mut mem, 0);
    // damage one magic byte: re-attachment must refuse
    mem.write(CELL_META_SIZE, &[0u8]);
    assert!(StableMemoryAllocator::reinit(&mem, 0).is_none());
}

#[test]
fn coalesce_pattern_merges_all_three() {
    // allocate four adjacent cells, free the first three in the order
    // first, third, second: after the middle one goes, all three must have
    // merged into a single free cell of the summed footprint, the sole
    // member of its size class
    let mut mem = Memory::new();
    mem.grow(1).expect("Unable to grow");
    let mut hook = false;

    let sma = StableMemoryAllocator::init(&mut mem, 0);
    sma.set_max_grow_pages(&mut mem, 1);

    let a = sma.allocate(&mut mem, 64, &mut hook).unwrap();
    let b = sma.allocate(&mut mem, 64, &mut hook).unwrap();
    let c = sma.allocate(&mut mem, 64, &mut hook).unwrap();
    let guard = sma.allocate(&mut mem, 64, &mut hook).unwrap();

    assert_eq!(a.get_next_neighbor_ptr(), b.get_ptr());
    assert_eq!(b.get_next_neighbor_ptr(), c.get_ptr());
    assert_eq!(c.get_next_neighbor_ptr(), guard.get_ptr());

    let sum_totals = a.get_total_size_bytes() + b.get_total_size_bytes() + c.get_total_size_bytes();
    let merged_ptr = a.get_ptr();

    sma.deallocate(&mut mem, a).unwrap();
    sma.deallocate(&mut mem, c).unwrap();
    sma.deallocate(&mut mem, b).unwrap();

    let merged_size = sum_totals - 2 * CELL_META_SIZE;
    let id = get_seg_class_id(merged_size);
    let head = sma.get_seg_class_head(&mem, id).unwrap();
    assert_eq!(head.get_ptr(), merged_ptr);
    assert_eq!(head.get_total_size_bytes(), sum_totals);
    // sole member of its class
    assert_eq!(head.get_next_free_ptr(&mem), EMPTY_PTR);

    sma.deallocate(&mut mem, guard).unwrap();
    assert_eq!(sma.get_allocated_size(&mem), 0);
}

#[test]
fn reallocate_to_smaller_preserves_prefix() {
    let mut mem = Memory::new();
    mem.grow(1).expect("Unable to grow");
    let mut hook = false;

    let sma = StableMemoryAllocator::init(&mut mem, 0);
    sma.set_max_grow_pages(&mut mem, 1);

    let c = sma.allocate(&mut mem, 100, &mut hook).unwrap();
    let pattern: Vec<u8> = (0..100u32).map(|i| (i % 251) as u8).collect();
    c._write_bytes(&mut mem, 0, &pattern);

    let c2 = sma.reallocate(&mut mem, c, 50, &mut hook).unwrap();
    assert!(c2.get_size_bytes() >= 50);
    let back = c2._read_bytes(&mem, 0, 50);
    assert_eq!(back, pattern[..50].to_vec());
}

#[test]
fn corrupt_counter_is_detected() {
    // a deallocation that would underflow the allocated counter is refused
    // as metadata corruption rather than wrapped around
    let mut mem = Memory::new();
    mem.grow(1).expect("Unable to grow");
    let mut hook = false;

    let sma = StableMemoryAllocator::init(&mut mem, 0);
    sma.set_max_grow_pages(&mut mem, 1);
    let c = sma.allocate(&mut mem, 64, &mut hook).unwrap();

    mem.write_word(CELL_META_SIZE + OFF_ALLOCATED, 0);
    assert_eq!(
        sma.deallocate(&mut mem, c),
        Err(AllocError::InvariantViolation)
    );
}

#[test]
fn seg_class_boundaries() {
    // class id is ceil(log2(size)) - 4, floored at zero; the boundary size
    // 2^(k+4) itself still belongs to class k
    assert_eq!(get_seg_class_id(1), 0);
    assert_eq!(get_seg_class_id(16), 0);
    assert_eq!(get_seg_class_id(17), 1);
    assert_eq!(get_seg_class_id(32), 1);
    assert_eq!(get_seg_class_id(33), 2);
    assert_eq!(get_seg_class_id(255), 4);
    assert_eq!(get_seg_class_id(256), 4);
    assert_eq!(get_seg_class_id(257), 5);
    assert_eq!(get_seg_class_id(1024), 6);

    // allocating exactly at a class boundary works like any other size
    let mut mem = Memory::new();
    mem.grow(1).expect("Unable to grow");
    let mut hook = false;
    let sma = StableMemoryAllocator::init(&mut mem, 0);
    sma.set_max_grow_pages(&mut mem, 1);
    let c = sma.allocate(&mut mem, 256, &mut hook).unwrap();
    assert!(c.get_size_bytes() >= 256);
}

#[test]
fn allocate_hands_out_zeroed_payload() {
    let mut mem = Memory::new();
    mem.grow(1).expect("Unable to grow");
    let mut hook = false;

    let sma = StableMemoryAllocator::init(&mut mem, 0);
    sma.set_max_grow_pages(&mut mem, 1);

    let c = sma.allocate(&mut mem, 64, &mut hook).unwrap();
    let junk = vec![0xFFu8; 64];
    c._write_bytes(&mut mem, 0, &junk);
    sma.deallocate(&mut mem, c).unwrap();

    let c2 = sma.allocate(&mut mem, 64, &mut hook).unwrap();
    let read = c2._read_bytes(&mem, 0, c2.get_size_bytes());
    assert!(read.iter().all(|b| *b == 0));
}

#[test]
fn custom_data_ptrs_roundtrip() {
    let mut mem = Memory::new();
    mem.grow(1).expect("Unable to grow");

    let sma = StableMemoryAllocator::init(&mut mem, 0);
    for idx in 0..4u64 {
        assert_eq!(sma.get_custom_data_ptr(&mem, idx), EMPTY_PTR);
        sma.set_custom_data_ptr(&mut mem, idx, 1000 + idx);
    }
    for idx in 0..4u64 {
        assert_eq!(sma.get_custom_data_ptr(&mem, idx), 1000 + idx);
    }
    // the knobs persist across a re-attachment
    let sma2 = StableMemoryAllocator::reinit(&mem, 0).unwrap();
    for idx in 0..4u64 {
        assert_eq!(sma2.get_custom_data_ptr(&mem, idx), 1000 + idx);
    }
}

#[test]
fn tuning_knobs_roundtrip() {
    let mut mem = Memory::new();
    mem.grow(1).expect("Unable to grow");

    let sma = StableMemoryAllocator::init(&mut mem, 0);
    assert_eq!(sma.get_max_allocation_pages(&mem), 180);
    assert_eq!(sma.get_max_grow_pages(&mem), 0);
    assert!(!sma.get_on_low_executed_flag(&mem));

    sma.set_max_allocation_pages(&mut mem, 7);
    sma.set_max_grow_pages(&mut mem, 11);
    assert_eq!(sma.get_max_allocation_pages(&mem), 7);
    assert_eq!(sma.get_max_grow_pages(&mem), 11);
}
