use stable_alloc::mem_context::Memory;
use stable_alloc::allocator::StableMemoryAllocator;
use stable_alloc::binary_heap::{SBinaryHeap, SHeapType};

#[test]
fn heap_sort_works_fine() {
    let mut mem = Memory::new();
    mem.grow(1).expect("Unable to grow");
    let mut hook = false;
    let sma = StableMemoryAllocator::init(&mut mem, 0);

    let example = vec![10u64, 20, 30, 40, 50, 60, 70, 80, 90, 100];
    let mut max_heap = SBinaryHeap::new(SHeapType::Max, &mut mem, &sma, &mut hook).unwrap();

    // insert example values in random order
    max_heap.push(&mut mem, &sma, 80, &mut hook).unwrap();
    max_heap.push(&mut mem, &sma, 100, &mut hook).unwrap();
    max_heap.push(&mut mem, &sma, 50, &mut hook).unwrap();
    max_heap.push(&mut mem, &sma, 10, &mut hook).unwrap();
    max_heap.push(&mut mem, &sma, 90, &mut hook).unwrap();
    max_heap.push(&mut mem, &sma, 60, &mut hook).unwrap();
    max_heap.push(&mut mem, &sma, 70, &mut hook).unwrap();
    max_heap.push(&mut mem, &sma, 20, &mut hook).unwrap();
    max_heap.push(&mut mem, &sma, 40, &mut hook).unwrap();
    max_heap.push(&mut mem, &sma, 30, &mut hook).unwrap();

    let mut probe = vec![];

    // pop all elements, push them to probe
    probe.insert(0, max_heap.pop(&mut mem).unwrap());
    probe.insert(0, max_heap.pop(&mut mem).unwrap());
    probe.insert(0, max_heap.pop(&mut mem).unwrap());
    probe.insert(0, max_heap.pop(&mut mem).unwrap());
    probe.insert(0, max_heap.pop(&mut mem).unwrap());
    probe.insert(0, max_heap.pop(&mut mem).unwrap());
    probe.insert(0, max_heap.pop(&mut mem).unwrap());
    probe.insert(0, max_heap.pop(&mut mem).unwrap());
    probe.insert(0, max_heap.pop(&mut mem).unwrap());
    probe.insert(0, max_heap.pop(&mut mem).unwrap());

    // probe should be the same as example
    assert_eq!(probe, example, "Invalid elements order (max)");

    // it should also work for the min heap
    let example = vec![100u64, 90, 90, 80, 70, 50, 40, 30, 20, 10];
    let mut min_heap = SBinaryHeap::new(SHeapType::Min, &mut mem, &sma, &mut hook).unwrap();

    // insert example values in random order
    min_heap.push(&mut mem, &sma, 80, &mut hook).unwrap();
    min_heap.push(&mut mem, &sma, 100, &mut hook).unwrap();
    min_heap.push(&mut mem, &sma, 50, &mut hook).unwrap();
    min_heap.push(&mut mem, &sma, 10, &mut hook).unwrap();
    min_heap.push(&mut mem, &sma, 90, &mut hook).unwrap();
    min_heap.push(&mut mem, &sma, 90, &mut hook).unwrap();
    min_heap.push(&mut mem, &sma, 70, &mut hook).unwrap();
    min_heap.push(&mut mem, &sma, 20, &mut hook).unwrap();
    min_heap.push(&mut mem, &sma, 40, &mut hook).unwrap();
    min_heap.push(&mut mem, &sma, 30, &mut hook).unwrap();

    let mut probe = vec![];

    // pop all elements, push them to probe
    probe.insert(0, min_heap.pop(&mut mem).unwrap());
    probe.insert(0, min_heap.pop(&mut mem).unwrap());
    probe.insert(0, min_heap.pop(&mut mem).unwrap());
    probe.insert(0, min_heap.pop(&mut mem).unwrap());
    probe.insert(0, min_heap.pop(&mut mem).unwrap());
    probe.insert(0, min_heap.pop(&mut mem).unwrap());
    probe.insert(0, min_heap.pop(&mut mem).unwrap());
    probe.insert(0, min_heap.pop(&mut mem).unwrap());
    probe.insert(0, min_heap.pop(&mut mem).unwrap());
    probe.insert(0, min_heap.pop(&mut mem).unwrap());

    // probe should be the same as example
    assert_eq!(probe, example, "Invalid elements order (min)");
}

#[test]
fn heap_basics() {
    let mut mem = Memory::new();
    mem.grow(1).expect("Unable to grow");
    let mut hook = false;
    let sma = StableMemoryAllocator::init(&mut mem, 0);

    let mut heap = SBinaryHeap::new(SHeapType::Max, &mut mem, &sma, &mut hook).unwrap();
    assert!(heap.is_empty());
    assert_eq!(heap.len(), 0);
    assert_eq!(heap.peek(&mem), None);
    assert_eq!(heap.pop(&mut mem), None);

    heap.push(&mut mem, &sma, 7, &mut hook).unwrap();
    heap.push(&mut mem, &sma, 3, &mut hook).unwrap();
    heap.push(&mut mem, &sma, 11, &mut hook).unwrap();
    assert!(!heap.is_empty());
    assert_eq!(heap.len(), 3);
    assert_eq!(heap.peek(&mem), Some(11));
    assert_eq!(heap.pop(&mut mem), Some(11));
    assert_eq!(heap.peek(&mem), Some(7));
    assert_eq!(heap.len(), 2);

    let allocated_before = sma.get_allocated_size(&mem);
    heap.drop(&mut mem, &sma).unwrap();
    assert!(sma.get_allocated_size(&mem) < allocated_before);
}

#[test]
fn heap_handles_duplicates() {
    let mut mem = Memory::new();
    mem.grow(1).expect("Unable to grow");
    let mut hook = false;
    let sma = StableMemoryAllocator::init(&mut mem, 0);

    let mut heap = SBinaryHeap::new(SHeapType::Min, &mut mem, &sma, &mut hook).unwrap();
    for v in [5u64, 5, 5, 1, 9, 1] {
        heap.push(&mut mem, &sma, v, &mut hook).unwrap();
    }
    let mut out = vec![];
    while let Some(v) = heap.pop(&mut mem) {
        out.push(v);
    }
    assert_eq!(out, vec![1, 1, 5, 5, 5, 9]);
}
