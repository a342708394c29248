use os::mm::address::{PhysAddr, PhysPageNum, VirtPageNum};
use os::mm::memory::PhysMemory;
use os::mm::page_tale::{
    get_mut, translated_byte_buffer, translated_refmut, translated_str, PTEFlags, PageTable, PTE_R,
    PTE_W,
};

/// A table mapping virtual pages 0x10..0x13 to frames 0x80010..0x80013.
fn setup() -> (PhysMemory, PageTable) {
    let mut mem = PhysMemory::new(0x80000, 32);
    let mut pt = PageTable::new(&mut mem);
    for i in 0..4u64 {
        pt.map(&mut mem, VirtPageNum(0x10 + i), PhysPageNum(0x80010 + i), PTEFlags::from_bits_truncate(PTE_R | PTE_W));
    }
    (mem, pt)
}

fn put_bytes(mem: &mut PhysMemory, pa: u64, bytes: &[u8]) {
    for (k, b) in bytes.iter().enumerate() {
        mem.write_byte(PhysAddr(pa + k as u64), *b);
    }
}

#[test]
fn refmut_translates_user_pointer() {
    let (mem, pt) = setup();
    assert_eq!(translated_refmut::<u64>(&mem, pt.token(), 0x10008), Some(PhysAddr(0x8001_0008)));
    assert_eq!(translated_refmut::<u64>(&mem, pt.token(), 0x20_0000), None);
    // empty entry in an existing leaf table: physical address 0, the null address
    assert_eq!(translated_refmut::<u64>(&mem, pt.token(), 0x20000), None);
}

#[test]
fn refmut_rejects_null_physical_address() {
    let mut mem = PhysMemory::new(0x80000, 8);
    let mut pt = PageTable::new(&mut mem);
    pt.map(&mut mem, VirtPageNum(0x10), PhysPageNum(0), PTEFlags::from_bits_truncate(PTE_R));
    assert_eq!(translated_refmut::<u8>(&mem, pt.token(), 0x10000), None);
    assert_eq!(translated_refmut::<u8>(&mem, pt.token(), 0x10001), Some(PhysAddr(1)));
}

#[test]
fn get_mut_finds_object_in_page() {
    let (mem, pt) = setup();
    assert_eq!(get_mut::<[u64; 2]>(&mem, pt.token(), 0x11010), Some(PhysAddr(0x8001_1010)));
    // no middle table for this address: no translation
    assert_eq!(get_mut::<[u64; 2]>(&mem, pt.token(), 0x20_0010), None);
}

#[test]
fn get_mut_does_not_check_the_valid_bit() {
    let (mem, pt) = setup();
    // page 0x30 shares its leaf table with the mapped pages; its entry is empty
    assert_eq!(get_mut::<[u64; 2]>(&mem, pt.token(), 0x30010), Some(PhysAddr(0x10)));
}

#[test]
fn get_mut_object_ending_at_page_end_of_page_start() {
    let (mem, pt) = setup();
    assert_eq!(get_mut::<[u8; 4096]>(&mem, pt.token(), 0x12000), Some(PhysAddr(0x8001_2000)));
}

#[test]
fn translated_str_reads_to_zero_byte() {
    let (mut mem, pt) = setup();
    put_bytes(&mut mem, 0x8001_0100, b"hello\0world");
    let s = translated_str(&mem, pt.token(), 0x10100);
    assert_eq!(s, "hello");
}

#[test]
fn translated_str_crosses_pages() {
    let (mut mem, pt) = setup();
    put_bytes(&mut mem, 0x8001_0ffe, b"ab");
    put_bytes(&mut mem, 0x8001_1000, b"cd\0");
    assert_eq!(translated_str(&mem, pt.token(), 0x10ffe), "abcd");
}

#[test]
fn translated_str_stops_at_unmapped_page() {
    let (mut mem, pt) = setup();
    put_bytes(&mut mem, 0x8001_3ffd, b"xyz");
    assert_eq!(translated_str(&mem, pt.token(), 0x13ffd), "xyz");
    assert_eq!(translated_str(&mem, pt.token(), 0x50000), "");
}

#[test]
fn translated_str_bytes_become_chars() {
    let (mut mem, pt) = setup();
    put_bytes(&mut mem, 0x8001_0200, &[0x41, 0xe9, 0]);
    assert_eq!(translated_str(&mem, pt.token(), 0x10200), "A\u{e9}");
}

#[test]
fn byte_buffer_single_page() {
    let (mem, pt) = setup();
    let v = translated_byte_buffer(&mem, pt.token(), 0x10010, 0x20);
    assert_eq!(v, vec![(PhysAddr(0x8001_0010), 0x20)]);
}

#[test]
fn byte_buffer_spans_pages() {
    let (mem, pt) = setup();
    let v = translated_byte_buffer(&mem, pt.token(), 0x10ff0, 0x2020);
    assert_eq!(
        v,
        vec![
            (PhysAddr(0x8001_0ff0), 0x10),
            (PhysAddr(0x8001_1000), 0x1000),
            (PhysAddr(0x8001_2000), 0x1000),
            (PhysAddr(0x8001_3000), 0x10),
        ]
    );
    let total: u64 = v.iter().map(|p| p.1).sum();
    assert_eq!(total, 0x2020);
}

#[test]
fn byte_buffer_ending_on_page_boundary() {
    let (mem, pt) = setup();
    let v = translated_byte_buffer(&mem, pt.token(), 0x10800, 0x1800);
    assert_eq!(v, vec![(PhysAddr(0x8001_0800), 0x800), (PhysAddr(0x8001_1000), 0x1000)]);
}

#[test]
fn byte_buffer_empty() {
    let (mem, pt) = setup();
    assert_eq!(translated_byte_buffer(&mem, pt.token(), 0x10800, 0), vec![]);
}

#[test]
fn get_mut_rejects_null_physical_address() {
    let mut mem = PhysMemory::new(0x80000, 8);
    let mut pt = PageTable::new(&mut mem);
    pt.map(&mut mem, VirtPageNum(0x10), PhysPageNum(0), PTEFlags::from_bits_truncate(PTE_R));
    assert_eq!(get_mut::<u64>(&mem, pt.token(), 0x10000), None);
    assert_eq!(get_mut::<u64>(&mem, pt.token(), 0x10008), Some(PhysAddr(8)));
}
