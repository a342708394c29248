use os::mm::address::{PhysAddr, PhysPageNum, VirtAddr, VirtPageNum};

#[test]
fn virt_addr_keeps_low_39_bits() {
    assert_eq!(VirtAddr::from_u64(0x1234).0, 0x1234);
    assert_eq!(VirtAddr::from_u64((1u64 << 39) + 5).0, 5);
    assert_eq!(VirtAddr::from_u64(u64::MAX).0, (1u64 << 39) - 1);
}

#[test]
fn phys_addr_keeps_low_56_bits() {
    assert_eq!(PhysAddr::from_u64((1u64 << 56) | 0x42).0, 0x42);
    assert_eq!(PhysAddr::from_ppn(PhysPageNum(0x80000)).0, 0x8000_0000);
}

#[test]
fn floor_ceil_offset() {
    let va = VirtAddr(0x5123);
    assert_eq!(va.floor(), VirtPageNum(5));
    assert_eq!(va.ceil(), VirtPageNum(6));
    assert_eq!(va.page_offset(), 0x123);
    assert!(!va.aligned());
    let a = VirtAddr(0x6000);
    assert_eq!(a.floor(), VirtPageNum(6));
    assert_eq!(a.ceil(), VirtPageNum(6));
    assert!(a.aligned());
    assert_eq!(VirtAddr(0).ceil(), VirtPageNum(0));
    assert_eq!(VirtAddr::from_vpn(VirtPageNum(6)).0, 0x6000);
    assert_eq!(VirtPageNum::from_aligned(a), VirtPageNum(6));
    assert_eq!(PhysAddr(0x8000_1234).floor(), PhysPageNum(0x80001));
    assert_eq!(PhysAddr(0x8000_1234).page_offset(), 0x234);
}

#[test]
fn indexes_split_nine_bits_each() {
    let vpn = VirtPageNum((3 << 18) | (5 << 9) | 7);
    assert_eq!(vpn.indexes(), [3, 5, 7]);
    assert_eq!(VirtPageNum(0x7ff_ffff).indexes(), [511, 511, 511]);
    let mut v = VirtPageNum(511);
    v.step();
    assert_eq!(v, VirtPageNum(512));
    assert_eq!(v.indexes(), [0, 1, 0]);
}
