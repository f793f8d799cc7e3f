use stable_alloc::mem_context::Memory;
use stable_alloc::allocator::StableMemoryAllocator;
use stable_alloc::s_unsafe_cell::SUnsafeCell;

#[derive(Debug, PartialEq, Eq)]
struct Test {
    pub a: u128,
    pub b: String,
}

// a little-endian encoding of the test record: the number, the string's
// length, then its bytes
fn encode(t: &Test) -> Vec<u8> {
    let mut buf = vec![];
    buf.extend_from_slice(&t.a.to_le_bytes());
    buf.extend_from_slice(&(t.b.len() as u64).to_le_bytes());
    buf.extend_from_slice(t.b.as_bytes());
    buf
}

fn decode(buf: &[u8]) -> Test {
    let mut a_bytes = [0u8; 16];
    a_bytes.copy_from_slice(&buf[0..16]);
    let mut len_bytes = [0u8; 8];
    len_bytes.copy_from_slice(&buf[16..24]);
    let len = u64::from_le_bytes(len_bytes) as usize;
    let b = String::from_utf8(buf[24..24 + len].to_vec()).unwrap();
    Test {
        a: u128::from_le_bytes(a_bytes),
        b,
    }
}

#[test]
fn candid_membox_works_fine() {
    let mut mem = Memory::new();
    mem.grow(1).unwrap();
    let mut hook = false;
    let sma = StableMemoryAllocator::init(&mut mem, 0);

    let obj = Test {
        a: 12341231231,
        b: String::from("The string"),
    };

    let membox = SUnsafeCell::new(&mut mem, &sma, &encode(&obj), &mut hook).unwrap();
    let obj1 = decode(&membox.get_cloned(&mem));

    assert_eq!(obj, obj1);
}

#[test]
fn membox_set_and_reattach_by_ptr() {
    let mut mem = Memory::new();
    mem.grow(1).unwrap();
    let mut hook = false;
    let sma = StableMemoryAllocator::init(&mut mem, 0);

    let obj = Test {
        a: 1,
        b: String::from("short"),
    };
    let mut membox = SUnsafeCell::new(&mut mem, &sma, &encode(&obj), &mut hook).unwrap();

    // an update that fits in place does not move the cell
    let obj2 = Test {
        a: 2,
        b: String::from("tiny"),
    };
    let moved = membox.set(&mut mem, &sma, &encode(&obj2), &mut hook).unwrap();
    assert!(!moved);
    assert_eq!(decode(&membox.get_cloned(&mem)), obj2);

    // an update past the cell's capacity moves it
    let obj3 = Test {
        a: 3,
        b: std::iter::repeat('x').take(200).collect::<String>(),
    };
    let moved = membox.set(&mut mem, &sma, &encode(&obj3), &mut hook).unwrap();
    assert!(moved);
    assert_eq!(decode(&membox.get_cloned(&mem)), obj3);

    // the persisted pointer finds the same cell again
    let ptr = membox.as_ptr();
    let again = SUnsafeCell::from_ptr(&mem, ptr).unwrap();
    assert_eq!(again.as_ptr(), ptr);
    assert_eq!(decode(&again.get_cloned(&mem)), obj3);

    assert!(SUnsafeCell::from_ptr(&mem, 0).is_none());

    let allocated_before = sma.get_allocated_size(&mem);
    membox.drop(&mut mem, &sma).unwrap();
    assert!(sma.get_allocated_size(&mem) < allocated_before);
}
