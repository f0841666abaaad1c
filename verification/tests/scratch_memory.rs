use tigerbeetle::scratch_memory::ScratchMemory;

#[test]
fn scratch_memory_basic() {
    let mut scratch: ScratchMemory<u64> = ScratchMemory::new(10);

    let slice = scratch.acquire(10);
    for (n, slot) in slice.iter_mut().enumerate() {
        *slot = n as u64;
    }
    scratch.release();

    let slice = scratch.acquire(5);
    assert_eq!(&slice[..3], &[0_u64, 1, 2]);
}

#[test]
fn scratch_memory_is_lent_until_it_is_released() {
    let mut scratch: ScratchMemory<u8> = ScratchMemory::new(3);
    assert!(scratch.is_free());
    assert_eq!(scratch.acquire(2), &[0, 0]);
    assert!(!scratch.is_free());
    scratch.release();
    assert!(scratch.is_free());
    assert_eq!(scratch.acquire(0).len(), 0);
}
