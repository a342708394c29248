use os::mm::address::{PhysAddr, PhysPageNum};
use os::mm::memory::PhysMemory;

#[test]
fn new_memory_is_zero_and_free() {
    let mem = PhysMemory::new(0x80000, 4);
    for p in 0x80000u64..0x80004 {
        for i in [0u64, 1, 511] {
            assert_eq!(mem.read_word(PhysPageNum(p), i), 0);
        }
    }
}

#[test]
fn memory_outside_reads_zero() {
    let mut mem = PhysMemory::new(0x80000, 2);
    mem.write_word(PhysPageNum(0x80001), 511, 7);
    assert_eq!(mem.read_word(PhysPageNum(0x80001), 511), 7);
    assert_eq!(mem.read_word(PhysPageNum(0x80002), 0), 0);
    assert_eq!(mem.read_word(PhysPageNum(0x7ffff), 0), 0);
    assert_eq!(mem.read_word(PhysPageNum(0x80000), 512), 0);
}

#[test]
fn frame_alloc_hands_out_each_frame_once_then_none() {
    let mut mem = PhysMemory::new(0x80000, 3);
    let mut seen = Vec::new();
    for _ in 0..3 {
        let f = mem.frame_alloc().unwrap();
        assert!(f.0 >= 0x80000 && f.0 < 0x80003);
        assert!(!seen.contains(&f.0));
        seen.push(f.0);
    }
    assert_eq!(mem.frame_alloc(), None);
}

#[test]
fn frame_alloc_clears_the_frame() {
    let mut mem = PhysMemory::new(0x80000, 1);
    mem.write_word(PhysPageNum(0x80000), 3, 0xdead);
    let f = mem.frame_alloc().unwrap();
    assert_eq!(f, PhysPageNum(0x80000));
    assert_eq!(mem.read_word(f, 3), 0);
}

#[test]
fn bytes_are_little_endian() {
    let mut mem = PhysMemory::new(0x80000, 1);
    mem.write_word(PhysPageNum(0x80000), 1, 0x0807_0605_0403_0201);
    for k in 0..8u64 {
        assert_eq!(mem.read_byte(PhysAddr(0x8000_0008 + k)), (k + 1) as u8);
    }
    assert_eq!(mem.read_byte(PhysAddr(0x8000_0000)), 0);
}

#[test]
fn write_byte_changes_only_that_byte() {
    let mut mem = PhysMemory::new(0x80000, 1);
    mem.write_word(PhysPageNum(0x80000), 2, 0x1111_1111_1111_1111);
    mem.write_byte(PhysAddr(0x8000_0013), 0xab);
    assert_eq!(mem.read_word(PhysPageNum(0x80000), 2), 0x1111_1111_ab11_1111);
    assert_eq!(mem.read_byte(PhysAddr(0x8000_0013)), 0xab);
    assert_eq!(mem.read_byte(PhysAddr(0x8000_0012)), 0x11);
    assert_eq!(mem.free_frames(), 1);
}
