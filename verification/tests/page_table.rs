use os::mm::address::{PhysAddr, PhysPageNum, VirtAddr, VirtPageNum};
use os::mm::memory::PhysMemory;
use os::mm::page_tale::{PTEFlags, PageTable, PageTableEntry, PTE_R, PTE_V, PTE_W};

fn setup() -> (PhysMemory, PageTable) {
    let mut mem = PhysMemory::new(0x80000, 16);
    let pt = PageTable::new(&mut mem);
    (mem, pt)
}

#[test]
fn new_table_maps_nothing() {
    let (mem, pt) = setup();
    assert_eq!(pt.translate(&mem, VirtPageNum(0)), None);
    assert_eq!(pt.translate(&mem, VirtPageNum(0x123)), None);
    assert_eq!(pt.translate_va(&mem, &VirtAddr(0x1000)), None);
}

#[test]
fn map_then_translate() {
    let (mut mem, mut pt) = setup();
    let flags = PTEFlags::from_bits_truncate(PTE_R | PTE_W);
    pt.map(&mut mem, VirtPageNum(0x10), PhysPageNum(0x90000), flags);
    let e = pt.translate(&mem, VirtPageNum(0x10)).unwrap();
    assert_eq!(e, PageTableEntry::new(PhysPageNum(0x90000), PTEFlags::from_bits_truncate(PTE_R | PTE_W | PTE_V)));
    assert!(e.is_valid() && e.readable() && e.writable() && !e.executable());
    assert_eq!(pt.translate_va(&mem, &VirtAddr(0x10abc)), Some(PhysAddr(0x9000_0abc)));
}

#[test]
fn map_leaves_other_pages_empty() {
    let (mut mem, mut pt) = setup();
    pt.map(&mut mem, VirtPageNum(0x10), PhysPageNum(0x90000), PTEFlags::from_bits_truncate(PTE_R));
    let other = pt.translate(&mem, VirtPageNum(0x11)).unwrap();
    assert_eq!(other, PageTableEntry::empty());
    assert!(!other.is_valid());
    assert_eq!(pt.translate(&mem, VirtPageNum(1 << 18)), None);
}

#[test]
fn map_many_shares_tables() {
    let (mut mem, mut pt) = setup();
    for i in 0..20u64 {
        pt.map(&mut mem, VirtPageNum(0x200 + i), PhysPageNum(0x90000 + i), PTEFlags::from_bits_truncate(PTE_R));
    }
    for i in 0..20u64 {
        assert_eq!(pt.translate(&mem, VirtPageNum(0x200 + i)).unwrap().ppn(), PhysPageNum(0x90000 + i));
    }
}

#[test]
fn unmap_clears_entry() {
    let (mut mem, mut pt) = setup();
    pt.map(&mut mem, VirtPageNum(0x10), PhysPageNum(0x90000), PTEFlags::from_bits_truncate(PTE_R));
    pt.map(&mut mem, VirtPageNum(0x11), PhysPageNum(0x90001), PTEFlags::from_bits_truncate(PTE_R));
    pt.unmap(&mut mem, VirtPageNum(0x10));
    assert_eq!(pt.translate(&mem, VirtPageNum(0x10)), Some(PageTableEntry::empty()));
    assert_eq!(pt.translate(&mem, VirtPageNum(0x11)).unwrap().ppn(), PhysPageNum(0x90001));
    pt.map(&mut mem, VirtPageNum(0x10), PhysPageNum(0x90005), PTEFlags::from_bits_truncate(PTE_W));
    assert_eq!(pt.translate(&mem, VirtPageNum(0x10)).unwrap().ppn(), PhysPageNum(0x90005));
}

#[test]
fn token_round_trip() {
    let (mut mem, mut pt) = setup();
    pt.map(&mut mem, VirtPageNum(7), PhysPageNum(0x90007), PTEFlags::from_bits_truncate(PTE_R));
    let token = pt.token();
    assert_eq!(token >> 60, 8);
    let view = PageTable::from_token(token);
    assert_eq!(view.token(), token);
    assert_eq!(view.translate(&mem, VirtPageNum(7)), pt.translate(&mem, VirtPageNum(7)));
}

#[test]
fn from_token_ignores_mode_bits() {
    let a = PageTable::from_token((8u64 << 60) | 0x80001);
    let b = PageTable::from_token(0x80001);
    assert_eq!(a.token(), b.token());
}

#[test]
fn map_links_new_tables_with_valid_only_entries() {
    let (mut mem, mut pt) = setup();
    let root = PhysPageNum(pt.token() & ((1u64 << 44) - 1));
    let vpn = VirtPageNum((3 << 18) | (5 << 9) | 7);
    pt.map(&mut mem, vpn, PhysPageNum(0x90000), PTEFlags::from_bits_truncate(PTE_R));
    let e0 = PageTableEntry { bits: mem.read_word(root, 3) };
    assert_eq!(e0.flags(), Some(PTEFlags::from_bits_truncate(PTE_V)));
    let d = e0.ppn();
    let e1 = PageTableEntry { bits: mem.read_word(d, 5) };
    assert_eq!(e1.flags(), Some(PTEFlags::from_bits_truncate(PTE_V)));
    let l = e1.ppn();
    assert_ne!(d, l);
    // everything else in the new tables is clear
    for i in 0..512u64 {
        if i != 5 {
            assert_eq!(mem.read_word(d, i), 0);
        }
        if i != 7 {
            assert_eq!(mem.read_word(l, i), 0);
        }
    }
    // a second page under the same tables takes no new table
    let free = mem.free_frames();
    pt.map(&mut mem, VirtPageNum((3 << 18) | (5 << 9) | 8), PhysPageNum(0x90001), PTEFlags::from_bits_truncate(PTE_R));
    assert_eq!(mem.free_frames(), free);
}
