use os::mm::address::PhysPageNum;
use os::mm::page_tale::{PTEFlags, PageTableEntry, PTE_R, PTE_V, PTE_W, PTE_X, PTE_U};

#[test]
fn flags_from_bits_always_succeeds() {
    for b in 0u8..=255 {
        assert_eq!(PTEFlags::from_bits(b), Some(PTEFlags { bits: b }));
        assert_eq!(PTEFlags::from_bits_truncate(b).bits(), b);
    }
}

#[test]
fn flags_set_operations() {
    let rw = PTEFlags::from_bits_truncate(PTE_R).union(PTEFlags::from_bits_truncate(PTE_W));
    assert_eq!(rw.bits, 6);
    assert!(rw.contains(PTEFlags::from_bits_truncate(PTE_R)));
    assert!(!rw.contains(PTEFlags::from_bits_truncate(PTE_X)));
    assert_eq!(rw.intersection(PTEFlags::from_bits_truncate(PTE_W)).bits, PTE_W);
    assert!(PTEFlags::empty().is_empty());
    assert!(!rw.is_empty());
}

#[test]
fn entry_round_trip() {
    let flags = PTEFlags::from_bits_truncate(PTE_V | PTE_R | PTE_X | PTE_U);
    let e = PageTableEntry::new(PhysPageNum(0x8_0123), flags);
    assert_eq!(e.bits, (0x8_0123u64 << 10) | 0b11011);
    assert_eq!(e.ppn(), PhysPageNum(0x8_0123));
    assert_eq!(e.flags(), Some(flags));
    assert!(e.is_valid());
    assert!(e.readable());
    assert!(!e.writable());
    assert!(e.executable());
}

#[test]
fn entry_largest_page_number() {
    let top = (1u64 << 44) - 1;
    let e = PageTableEntry::new(PhysPageNum(top), PTEFlags::from_bits_truncate(PTE_V));
    assert_eq!(e.ppn(), PhysPageNum(top));
    assert!(e.is_valid());
}

#[test]
fn empty_entry_is_invalid() {
    let e = PageTableEntry::empty();
    assert_eq!(e.bits, 0);
    assert!(!e.is_valid());
    assert!(!e.readable());
    assert!(!e.writable());
    assert!(!e.executable());
    assert_eq!(e.ppn(), PhysPageNum(0));
}

#[test]
fn entry_ignores_reserved_high_bits() {
    let e = PageTableEntry { bits: (0x3ffu64 << 54) | (5u64 << 10) | 1 };
    assert_eq!(e.ppn(), PhysPageNum(5));
    assert!(e.is_valid());
}
