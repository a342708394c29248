//! Sv39 physical and virtual addresses and page numbers.
use vstd::prelude::*;

verus! {

/// Size of a page in bytes.
pub const PAGE_SIZE: u64 = 4096;
/// Number of bits of the in-page offset.
pub const PAGE_SIZE_BITS: u64 = 12;
/// Mask of a physical address (56 bits).
pub const PA_MASK: u64 = 0xff_ffff_ffff_ffff;
/// Mask of a virtual address (39 bits).
pub const VA_MASK: u64 = 0x7f_ffff_ffff;
/// Mask of a physical page number (44 bits).
pub const PPN_MASK: u64 = 0xfff_ffff_ffff;
/// Number of physical page numbers: 2^44.
pub const PPN_LIMIT: u64 = 0x1000_0000_0000;
/// Number of virtual addresses: 2^39.
pub const VA_LIMIT: u64 = 0x80_0000_0000;

#[derive(Clone, Copy, PartialEq, Eq, Structural, Debug)]
pub struct PhysAddr(pub u64);

#[derive(Clone, Copy, PartialEq, Eq, Structural, Debug)]
pub struct VirtAddr(pub u64);

#[derive(Clone, Copy, PartialEq, Eq, Structural, Debug)]
pub struct PhysPageNum(pub u64);

#[derive(Clone, Copy, PartialEq, Eq, Structural, Debug)]
pub struct VirtPageNum(pub u64);

/// Index of `vpn` into the page-table page of the given level
/// (0: root, 1: middle, 2: leaf); nine bits per level.
pub open spec fn vpn_index(vpn: u64, level: int) -> u64 {
    if level == 0 {
        (vpn >> 18u64) & 511u64
    } else if level == 1 {
        (vpn >> 9u64) & 511u64
    } else {
        vpn & 511u64
    }
}

/// Two page numbers that select the same leaf slot of every page table.
pub open spec fn same_slot(a: u64, b: u64) -> bool {
    &&& vpn_index(a, 0) == vpn_index(b, 0)
    &&& vpn_index(a, 1) == vpn_index(b, 1)
    &&& vpn_index(a, 2) == vpn_index(b, 2)
}

pub proof fn lemma_vpn_index_bound(vpn: u64)
    ensures
        vpn_index(vpn, 0) < 512,
        vpn_index(vpn, 1) < 512,
        vpn_index(vpn, 2) < 512,
{
    assert((vpn >> 18u64) & 511u64 < 512) by (bit_vector);
    assert((vpn >> 9u64) & 511u64 < 512) by (bit_vector);
    assert(vpn & 511u64 < 512) by (bit_vector);
}

/// Two page numbers select the same slot exactly when their low 27 bits
/// agree.
pub proof fn lemma_same_slot_mod(a: u64, b: u64)
    ensures
        same_slot(a, b) <==> a % 0x800_0000 == b % 0x800_0000,
{
    assert(((a >> 18u64) & 511u64 == (b >> 18u64) & 511u64 && (a >> 9u64) & 511u64 == (b >> 9u64)
        & 511u64 && a & 511u64 == b & 511u64) <==> (a & 0x7ff_ffffu64 == b & 0x7ff_ffffu64))
        by (bit_vector);
    assert(a & 0x7ff_ffffu64 == a % 0x800_0000) by (bit_vector);
    assert(b & 0x7ff_ffffu64 == b % 0x800_0000) by (bit_vector);
}

impl PhysAddr {
    /// The physical address of the low 56 bits of `v`.
    pub fn from_u64(v: u64) -> (r: PhysAddr)
        ensures
            r.0 == v % 0x100_0000_0000_0000,
    {
        assert(v & 0xff_ffff_ffff_ffffu64 == v % 0x100_0000_0000_0000) by (bit_vector);
        PhysAddr(v & PA_MASK)
    }

    /// The first address of a physical page.
    pub fn from_ppn(ppn: PhysPageNum) -> (r: PhysAddr)
        requires
            ppn.0 < PPN_LIMIT,
        ensures
            r.0 == ppn.0 * PAGE_SIZE,
    {
        let p = ppn.0;
        assert(p << 12u64 == p * 4096) by (bit_vector)
            requires p < 0x1000_0000_0000u64;
        PhysAddr(p << PAGE_SIZE_BITS)
    }

    /// Offset of the address inside its page.
    pub fn page_offset(&self) -> (r: u64)
        ensures
            r == self.0 % PAGE_SIZE,
    {
        let a = self.0;
        assert(a & 4095u64 == a % 4096) by (bit_vector);
        a & (PAGE_SIZE - 1)
    }

    /// The page the address lies in.
    pub fn floor(&self) -> (r: PhysPageNum)
        ensures
            r.0 == self.0 / PAGE_SIZE,
    {
        PhysPageNum(self.0 / PAGE_SIZE)
    }
}

impl VirtAddr {
    /// The virtual address of the low 39 bits of `v`.
    pub fn from_u64(v: u64) -> (r: VirtAddr)
        ensures
            r.0 == v % VA_LIMIT,
    {
        assert(v & 0x7f_ffff_ffffu64 == v % 0x80_0000_0000) by (bit_vector);
        VirtAddr(v & VA_MASK)
    }

    /// The first address of a virtual page.
    pub fn from_vpn(vpn: VirtPageNum) -> (r: VirtAddr)
        requires
            vpn.0 < 0x10_0000_0000_0000,
        ensures
            r.0 == vpn.0 * PAGE_SIZE,
    {
        let v = vpn.0;
        assert(v << 12u64 == v * 4096) by (bit_vector)
            requires v < 0x10_0000_0000_0000u64;
        VirtAddr(v << PAGE_SIZE_BITS)
    }

    /// The page the address lies in.
    pub fn floor(&self) -> (r: VirtPageNum)
        ensures
            r.0 == self.0 / PAGE_SIZE,
    {
        VirtPageNum(self.0 / PAGE_SIZE)
    }

    /// The first page that starts at or above the address.
    pub fn ceil(&self) -> (r: VirtPageNum)
        ensures
            r.0 == (self.0 + 4095) / (PAGE_SIZE as int),
    {
        if self.0 == 0 {
            VirtPageNum(0)
        } else {
            VirtPageNum((self.0 - 1) / PAGE_SIZE + 1)
        }
    }

    /// Offset of the address inside its page.
    pub fn page_offset(&self) -> (r: u64)
        ensures
            r == self.0 % PAGE_SIZE,
    {
        let a = self.0;
        assert(a & 4095u64 == a % 4096) by (bit_vector);
        a & (PAGE_SIZE - 1)
    }

    /// Whether the address is the first address of a page.
    pub fn aligned(&self) -> (r: bool)
        ensures
            r == (self.0 % PAGE_SIZE == 0),
    {
        self.page_offset() == 0
    }
}

impl VirtPageNum {
    /// The page number of an address that starts a page.
    pub fn from_aligned(va: VirtAddr) -> (r: VirtPageNum)
        requires
            va.0 % PAGE_SIZE == 0,
        ensures
            r.0 == va.0 / PAGE_SIZE,
    {
        va.floor()
    }

    /// The indexes of the page into the root, middle and leaf page tables.
    pub fn indexes(&self) -> (r: [u64; 3])
        ensures
            r[0] == vpn_index(self.0, 0),
            r[1] == vpn_index(self.0, 1),
            r[2] == vpn_index(self.0, 2),
    {
        let v0 = self.0;
        let mut vpn = v0;
        let mut idx: [u64; 3] = [0u64; 3];
        let i2 = vpn & 511;
        vpn = vpn >> 9;
        let i1 = vpn & 511;
        vpn = vpn >> 9;
        let i0 = vpn & 511;
        assert((v0 >> 9u64) >> 9u64 == v0 >> 18u64) by (bit_vector);
        idx[2] = i2;
        idx[1] = i1;
        idx[0] = i0;
        idx
    }

    /// Advance to the next page.
    pub fn step(&mut self)
        requires
            old(self).0 < u64::MAX,
        ensures
            final(self).0 == old(self).0 + 1,
    {
        self.0 = self.0 + 1;
    }
}

} // verus!
