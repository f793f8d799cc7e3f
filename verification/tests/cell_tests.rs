use stable_alloc::mem_context::Memory;
use stable_alloc::s_slice::{SSlice, Side};
use stable_alloc::{CELL_META_SIZE, CELL_MIN_SIZE};

#[test]
fn creation_works_fine() {
    let mut mem = Memory::new();
    mem.grow(10).expect("Unable to grow");

    let m1_size: u64 = 100;
    let m2_size: u64 = 200;
    let m3_size: u64 = 300;

    let m1 = SSlice::new(&mut mem, 0, m1_size, false);
    assert_eq!(m1.get_meta(), (m1_size, false));
    assert_eq!(m1.get_next_neighbor_ptr(), m1_size + CELL_META_SIZE * 2);

    let m2 = SSlice::new(&mut mem, m1.get_next_neighbor_ptr(), m2_size, true);
    assert_eq!(m2.get_meta(), (m2_size, true));
    assert_eq!(
        m2.get_next_neighbor_ptr(),
        m1.get_next_neighbor_ptr() + m2_size + CELL_META_SIZE * 2
    );

    let m3 = SSlice::new(&mut mem, m2.get_next_neighbor_ptr(), m3_size, false);
    assert_eq!(m3.get_meta(), (m3_size, false));
    assert_eq!(
        m3.get_next_neighbor_ptr(),
        m2.get_next_neighbor_ptr() + m3_size + CELL_META_SIZE * 2
    );

    let m1 = SSlice::from_ptr(&mem, 0, Side::Start).unwrap();
    assert_eq!(m1.get_meta(), (m1_size, false));
    assert_eq!(m1.get_next_neighbor_ptr(), m1_size + CELL_META_SIZE * 2);

    let m1 = SSlice::from_ptr(&mem, m1.get_next_neighbor_ptr(), Side::End).unwrap();
    assert_eq!(m1.get_meta(), (m1_size, false));
    assert_eq!(m1.get_next_neighbor_ptr(), m1_size + CELL_META_SIZE * 2);

    let m2 = SSlice::from_ptr(&mem, m1.get_next_neighbor_ptr(), Side::Start).unwrap();
    assert_eq!(m2.get_meta(), (m2_size, true));
    assert_eq!(
        m2.get_next_neighbor_ptr(),
        m1.get_next_neighbor_ptr() + m2_size + CELL_META_SIZE * 2
    );

    let m2 = SSlice::from_ptr(&mem, m2.get_next_neighbor_ptr(), Side::End).unwrap();
    assert_eq!(m2.get_meta(), (m2_size, true));
    assert_eq!(
        m2.get_next_neighbor_ptr(),
        m1.get_next_neighbor_ptr() + m2_size + CELL_META_SIZE * 2
    );

    let m3 = SSlice::from_ptr(&mem, m2.get_next_neighbor_ptr(), Side::Start).unwrap();
    assert_eq!(m3.get_meta(), (m3_size, false));
    assert_eq!(
        m3.get_next_neighbor_ptr(),
        m2.get_next_neighbor_ptr() + m3_size + CELL_META_SIZE * 2
    );

    let m3 = SSlice::from_ptr(&mem, m3.get_next_neighbor_ptr(), Side::End).unwrap();
    assert_eq!(m3.get_meta(), (m3_size, false));
    assert_eq!(
        m3.get_next_neighbor_ptr(),
        m2.get_next_neighbor_ptr() + m3_size + CELL_META_SIZE * 2
    );
}

#[test]
fn split_merge_work_fine() {
    let mut mem = Memory::new();
    mem.grow(10).expect("Unable to grow");

    let m1_size: u64 = 100;
    let m2_size: u64 = 200;
    let m3_size: u64 = 300;

    let m1 = SSlice::new(&mut mem, 0, m1_size, false);
    let m2 = SSlice::new(&mut mem, m1.get_next_neighbor_ptr(), m2_size, false);
    let m3 = SSlice::new(&mut mem, m2.get_next_neighbor_ptr(), m3_size, false);

    let initial_m3_next_ptr = m3.get_next_neighbor_ptr();

    let (m3, m4) = m3.split(&mut mem, 100).ok().unwrap();
    assert_eq!(m3.get_meta(), (100, false));
    assert_eq!(m3.get_next_neighbor_ptr(), m4.get_ptr());

    assert_eq!(m4.get_meta(), (m3_size - 100 - 2 * CELL_META_SIZE, false));
    assert_eq!(m4.get_next_neighbor_ptr(), initial_m3_next_ptr);

    let m3 = m4.merge_with_neighbor(&mut mem, m3);
    assert_eq!(m3.get_meta(), (m3_size, false));
    assert_eq!(m3.get_next_neighbor_ptr(), initial_m3_next_ptr);

    let m2 = m2.merge_with_neighbor(&mut mem, m3);
    assert_eq!(m2.get_meta(), (m2_size + m3_size + 2 * CELL_META_SIZE, false));
    assert_eq!(m2.get_next_neighbor_ptr(), initial_m3_next_ptr);

    let m1 = m2.merge_with_neighbor(&mut mem, m1);
    assert_eq!(
        m1.get_meta(),
        (m1_size + m2_size + m3_size + 4 * CELL_META_SIZE, false)
    );
    assert_eq!(m1.get_next_neighbor_ptr(), initial_m3_next_ptr);

    let (m1, m2) = m1.split(&mut mem, m1_size).ok().unwrap();
    assert_eq!(m1.get_meta(), (m1_size, false));
    assert_eq!(m2.get_meta(), (m2_size + m3_size + 2 * CELL_META_SIZE, false));
    assert_eq!(m1.get_next_neighbor_ptr(), m2.get_ptr());
    assert_eq!(m2.get_next_neighbor_ptr(), initial_m3_next_ptr);

    let (m2, m3) = m2.split(&mut mem, m2_size).ok().unwrap();
    assert_eq!(m2.get_meta(), (m2_size, false));
    assert_eq!(m3.get_meta(), (m3_size, false));
    assert_eq!(m2.get_next_neighbor_ptr(), m3.get_ptr());
    assert_eq!(m3.get_next_neighbor_ptr(), initial_m3_next_ptr);
}

#[test]
fn read_write_work_fine() {
    let mut mem = Memory::new();
    mem.grow(10).expect("Unable to grow");

    let m1 = SSlice::new(&mut mem, 0, 100, true);

    let a = vec![1u8, 2, 3, 4, 5, 6, 7, 8];
    let b = vec![1u8, 3, 3, 7];
    let c = vec![9u8, 8, 7, 6, 5, 4, 3, 2, 1];

    m1._write_bytes(&mut mem, 0, &a);
    m1._write_bytes(&mut mem, 8, &b);
    m1._write_bytes(&mut mem, 90, &c);

    let a1 = m1._read_bytes(&mem, 0, 8);
    let b1 = m1._read_bytes(&mem, 8, 4);
    let c1 = m1._read_bytes(&mem, 90, 9);

    assert_eq!(a, a1);
    assert_eq!(b, b1);
    assert_eq!(c, c1);
}

#[test]
fn split_fidelity() {
    // a free cell of payload 1000, split at 100: the second part holds what
    // remains after the pair of boundary tags between the halves
    let mut mem = Memory::new();
    mem.grow(1).expect("Unable to grow");

    let cell = SSlice::new(&mut mem, 0, 1000, false);
    let (first, second) = cell.split(&mut mem, 100).ok().unwrap();
    assert_eq!(first.get_meta(), (100, false));
    assert_eq!(second.get_meta(), (1000 - 100 - 2 * CELL_META_SIZE, false));
    assert_eq!(second.get_size_bytes(), 884);

    let merged = first.merge_with_neighbor(&mut mem, second);
    assert_eq!(merged.get_meta(), (1000, false));
}

#[test]
fn split_remainder_exactly_minimum() {
    // the smallest remainder a split may leave behind is a minimal cell
    let mut mem = Memory::new();
    mem.grow(1).expect("Unable to grow");

    let payload: u64 = 100;
    let cell = SSlice::new(&mut mem, 0, payload, false);

    // asking one byte more leaves less than a minimal cell: refused whole
    let keep = payload - CELL_MIN_SIZE - 2 * CELL_META_SIZE;
    let too_big = cell.split(&mut mem, keep + 1);
    assert!(too_big.is_err());
    let cell = too_big.err().unwrap();
    assert_eq!(cell.get_meta(), (payload, false));

    // asking exactly the boundary succeeds with a minimal second cell
    let (first, second) = cell.split(&mut mem, keep).ok().unwrap();
    assert_eq!(first.get_size_bytes(), keep);
    assert_eq!(second.get_size_bytes(), CELL_MIN_SIZE);
}
