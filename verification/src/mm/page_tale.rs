//! Page-table entries, their flags, and the Sv39 three-level page table.
use vstd::prelude::*;
use crate::mm::address::{PAGE_SIZE, VA_LIMIT, vpn_index, lemma_vpn_index_bound, same_slot, PhysAddr, PhysPageNum, VirtAddr, VirtPageNum, PPN_LIMIT, PPN_MASK};
use crate::mm::memory::{agree_on, PhysMemory};

verus! {

/// Valid.
pub const PTE_V: u8 = 1;
/// Readable.
pub const PTE_R: u8 = 2;
/// Writable.
pub const PTE_W: u8 = 4;
/// Executable.
pub const PTE_X: u8 = 8;
/// Accessible from user mode.
pub const PTE_U: u8 = 16;
/// Global.
pub const PTE_G: u8 = 32;
/// Accessed.
pub const PTE_A: u8 = 64;
/// Dirty.
pub const PTE_D: u8 = 128;

/// The eight flag bits of a page-table entry.
#[derive(Clone, Copy, PartialEq, Eq, Structural, Debug)]
pub struct PTEFlags {
    pub bits: u8,
}

impl PTEFlags {
    /// The flags of `bits`; every one of the eight bits names a flag, so
    /// this always succeeds.
    pub fn from_bits(bits: u8) -> (r: Option<PTEFlags>)
        ensures
            r == Some(PTEFlags { bits }),
    {
        Some(PTEFlags { bits })
    }

    /// The flags of `bits`, dropping bits that name no flag (there are none).
    pub fn from_bits_truncate(bits: u8) -> (r: PTEFlags)
        ensures
            r.bits == bits,
    {
        PTEFlags { bits }
    }

    pub fn empty() -> (r: PTEFlags)
        ensures
            r.bits == 0,
    {
        PTEFlags { bits: 0 }
    }

    pub fn bits(&self) -> (r: u8)
        ensures
            r == self.bits,
    {
        self.bits
    }

    pub fn is_empty(&self) -> (r: bool)
        ensures
            r == (self.bits == 0),
    {
        self.bits == 0
    }

    /// The flags set in either operand.
    pub fn union(self, other: PTEFlags) -> (r: PTEFlags)
        ensures
            r.bits == self.bits | other.bits,
    {
        PTEFlags { bits: self.bits | other.bits }
    }

    /// The flags set in both operands.
    pub fn intersection(self, other: PTEFlags) -> (r: PTEFlags)
        ensures
            r.bits == self.bits & other.bits,
    {
        PTEFlags { bits: self.bits & other.bits }
    }

    /// Whether every flag of `other` is set in `self`.
    pub fn contains(&self, other: PTEFlags) -> (r: bool)
        ensures
            r == (self.bits & other.bits == other.bits),
    {
        self.bits & other.bits == other.bits
    }
}

/// Whether the entry `e` has its valid bit set.
pub open spec fn pte_valid(e: u64) -> bool {
    e & 1u64 != 0
}

/// The physical page number stored in entry `e` (bits 10..54).
pub open spec fn pte_ppn(e: u64) -> u64 {
    (e >> 10u64) & 0xfff_ffff_ffffu64
}

/// The encoding of an entry that points at `ppn` with `flags`.
pub open spec fn pte_encode(ppn: u64, flags: u8) -> u64 {
    (ppn << 10u64) | (flags as u64)
}

/// Decoding an encoded entry gives back its page number and flags.
pub proof fn lemma_pte_encode(ppn: u64, flags: u8)
    requires
        ppn < PPN_LIMIT,
    ensures
        pte_ppn(pte_encode(ppn, flags)) == ppn,
        pte_encode(ppn, flags) as u8 == flags,
        pte_valid(pte_encode(ppn, flags)) == (flags & 1u8 != 0),
        pte_encode(ppn, flags) & 0xffu64 == flags as u64,
{
    let e = pte_encode(ppn, flags);
    let f = flags as u64;
    assert(((((ppn << 10u64) | f) >> 10u64) & 0xfff_ffff_ffffu64) == ppn) by (bit_vector)
        requires
            ppn < 0x1000_0000_0000u64,
            f < 256u64,
    ;
    assert(((ppn << 10u64) | f) & 0xffu64 == f) by (bit_vector)
        requires
            f < 256u64,
    ;
    assert(((ppn << 10u64) | f) & 1u64 == f & 1u64) by (bit_vector);
    assert((flags & 1u8 != 0) == ((flags as u64) & 1u64 != 0)) by (bit_vector);
    assert(e as u8 == flags) by (bit_vector)
        requires
            e == (ppn << 10u64) | (flags as u64),
    ;
}

/// The zero entry is not valid.
pub proof fn lemma_zero_invalid()
    ensures
        !pte_valid(0),
{
    assert(0u64 & 1u64 == 0) by (bit_vector);
}

/// A page-table entry: a physical page number and eight flag bits.
#[derive(Clone, Copy, PartialEq, Eq, Structural, Debug)]
pub struct PageTableEntry {
    pub bits: u64,
}

impl PageTableEntry {
    /// The entry that maps to `ppn` with `flags`.
    pub fn new(ppn: PhysPageNum, flags: PTEFlags) -> (r: PageTableEntry)
        ensures
            r.bits == pte_encode(ppn.0, flags.bits),
            ppn.0 < PPN_LIMIT ==> pte_ppn(r.bits) == ppn.0 && r.bits as u8 == flags.bits,
    {
        proof {
            if ppn.0 < PPN_LIMIT {
                lemma_pte_encode(ppn.0, flags.bits);
            }
        }
        PageTableEntry { bits: ppn.0 << 10u64 | flags.bits as u64 }
    }

    /// The entry with every bit clear.
    pub fn empty() -> (r: PageTableEntry)
        ensures
            r.bits == 0,
    {
        PageTableEntry { bits: 0 }
    }

    /// The flags of the entry (its low eight bits).
    pub fn flags(&self) -> (r: Option<PTEFlags>)
        ensures
            r == Some(PTEFlags { bits: self.bits as u8 }),
    {
        PTEFlags::from_bits(self.bits as u8)
    }

    /// The physical page number the entry points at.
    pub fn ppn(&self) -> (r: PhysPageNum)
        ensures
            r.0 == pte_ppn(self.bits),
            r.0 < PPN_LIMIT,
    {
        let b = self.bits;
        assert((b >> 10u64) & 0xfff_ffff_ffffu64 < 0x1000_0000_0000u64) by (bit_vector);
        PhysPageNum(b >> 10 & PPN_MASK)
    }

    /// Whether the flag bits in `mask` intersect the entry's flags.
    fn has_flag(&self, mask: u8) -> (r: bool)
        ensures
            r == ((self.bits as u8) & mask != 0),
    {
        match self.flags() {
            Some(f) => f.intersection(PTEFlags { bits: mask }) != PTEFlags::empty(),
            None => false,
        }
    }

    pub fn is_valid(&self) -> (r: bool)
        ensures
            r == pte_valid(self.bits),
    {
        let b = self.bits;
        assert(((b as u8) & 1u8 != 0) == (b & 1u64 != 0)) by (bit_vector);
        self.has_flag(PTE_V)
    }

    pub fn readable(&self) -> (r: bool)
        ensures
            r == (self.bits & 2u64 != 0),
    {
        let b = self.bits;
        assert(((b as u8) & 2u8 != 0) == (b & 2u64 != 0)) by (bit_vector);
        self.has_flag(PTE_R)
    }

    pub fn writable(&self) -> (r: bool)
        ensures
            r == (self.bits & 4u64 != 0),
    {
        let b = self.bits;
        assert(((b as u8) & 4u8 != 0) == (b & 4u64 != 0)) by (bit_vector);
        self.has_flag(PTE_W)
    }

    pub fn executable(&self) -> (r: bool)
        ensures
            r == (self.bits & 8u64 != 0),
    {
        let b = self.bits;
        assert(((b as u8) & 8u8 != 0) == (b & 8u64 != 0)) by (bit_vector);
        self.has_flag(PTE_X)
    }
}


/// The part a frame plays in one page table: the root, the middle table
/// reached through root slot `i0`, or the leaf table reached through root
/// slot `i0` and middle slot `i1`.
pub enum Role {
    Root,
    Dir(u64),
    Leaf(u64, u64),
}

/// Where the walk for `vpn` from the root table `root` finds the leaf entry:
/// the leaf table and the slot in it, or `None` when an upper entry on the
/// way is not valid.
pub open spec fn leaf_slot(mem: PhysMemory, root: u64, vpn: u64) -> Option<(u64, u64)> {
    let e0 = mem.word(root, vpn_index(vpn, 0));
    if !pte_valid(e0) {
        None
    } else {
        let e1 = mem.word(pte_ppn(e0), vpn_index(vpn, 1));
        if !pte_valid(e1) {
            None
        } else {
            Some((pte_ppn(e1), vpn_index(vpn, 2)))
        }
    }
}

/// The leaf entry for `vpn`, if the walk reaches one.
pub open spec fn lookup(mem: PhysMemory, root: u64, vpn: u64) -> Option<u64> {
    match leaf_slot(mem, root, vpn) {
        Some((p, i)) => Some(mem.word(p, i)),
        None => None,
    }
}

/// The entry that governs `vpn`: the leaf entry, or the empty entry when
/// the walk stops early.
pub open spec fn entry(mem: PhysMemory, root: u64, vpn: u64) -> u64 {
    match lookup(mem, root, vpn) {
        Some(e) => e,
        None => 0,
    }
}

/// The page table rooted at `root` is a tree whose frames are exactly the
/// keys of `roles`: each valid root entry leads to a middle table of its own,
/// each valid entry of a middle table to a leaf table of its own, and none of
/// these frames is free.
pub open spec fn tree_wf(mem: PhysMemory, root: u64, roles: Map<u64, Role>) -> bool {
    &&& roles.contains_key(root)
    &&& roles[root] == Role::Root
    &&& forall|p: u64| #[trigger]
        roles.contains_key(p) ==> mem.has_frame(p) && !mem.free_set().contains(p)
    &&& forall|i: u64|
        i < 512 && pte_valid(#[trigger] mem.word(root, i)) ==> {
            &&& roles.contains_key(pte_ppn(mem.word(root, i)))
            &&& roles[pte_ppn(mem.word(root, i))] == Role::Dir(i)
        }
    &&& forall|p: u64, i: u64|
        roles.contains_key(p) && roles[p] is Dir && i < 512 && pte_valid(
            #[trigger] mem.word(p, i),
        ) ==> {
            &&& roles.contains_key(pte_ppn(mem.word(p, i)))
            &&& roles[pte_ppn(mem.word(p, i))] == Role::Leaf(roles[p]->Dir_0, i)
        }
}

/// The frames that the walk for `vpn` passes through play the roles of
/// their level.
pub proof fn lemma_walk_roles(mem: PhysMemory, root: u64, roles: Map<u64, Role>, vpn: u64)
    requires
        tree_wf(mem, root, roles),
    ensures
        pte_valid(mem.word(root, vpn_index(vpn, 0))) ==> {
            let d = pte_ppn(mem.word(root, vpn_index(vpn, 0)));
            &&& roles.contains_key(d)
            &&& roles[d] == Role::Dir(vpn_index(vpn, 0))
            &&& pte_valid(mem.word(d, vpn_index(vpn, 1))) ==> {
                let l = pte_ppn(mem.word(d, vpn_index(vpn, 1)));
                &&& roles.contains_key(l)
                &&& roles[l] == Role::Leaf(vpn_index(vpn, 0), vpn_index(vpn, 1))
            }
        },
{
    lemma_vpn_index_bound(vpn);
    let i0 = vpn_index(vpn, 0);
    if pte_valid(mem.word(root, i0)) {
        let d = pte_ppn(mem.word(root, i0));
        assert(roles[d] == Role::Dir(i0));
    }
}

/// Walks only read the frames of the tree: memory that agrees on those
/// frames has the same tree and the same entries.
pub proof fn lemma_tree_frame(m1: PhysMemory, m2: PhysMemory, root: u64, roles: Map<u64, Role>)
    requires
        tree_wf(m1, root, roles),
        agree_on(m1, m2, roles.dom()),
        forall|p: u64| #[trigger] m2.has_frame(p) == m1.has_frame(p),
        forall|p: u64| roles.contains_key(p) ==> !#[trigger] m2.free_set().contains(p),
    ensures
        tree_wf(m2, root, roles),
        forall|v: u64| #[trigger] leaf_slot(m2, root, v) == leaf_slot(m1, root, v),
        forall|v: u64| #[trigger] lookup(m2, root, v) == lookup(m1, root, v),
        forall|v: u64| #[trigger] entry(m2, root, v) == entry(m1, root, v),
        dirs(m2, root) == dirs(m1, root),
        leaves(m2, root) == leaves(m1, root),
{
    assert(dirs(m2, root) =~= dirs(m1, root)) by {
        assert forall|j0: u64| j0 < 512 implies #[trigger] m2.word(root, j0) == m1.word(root, j0) by {}
    }
    assert(leaves(m2, root) =~= leaves(m1, root)) by {
        assert forall|k: (u64, u64)| leaves(m2, root).contains(k) == leaves(m1, root).contains(k) by {
            if k.0 < 512 && k.1 < 512 {
                assert(m2.word(root, k.0) == m1.word(root, k.0));
                if pte_valid(m1.word(root, k.0)) {
                    let d = pte_ppn(m1.word(root, k.0));
                    assert(roles.contains_key(d));
                    assert(m2.word(d, k.1) == m1.word(d, k.1));
                }
            }
        }
    }
    assert forall|p: u64| #[trigger] roles.contains_key(p) implies m2.has_frame(p)
        && !m2.free_set().contains(p) by {
        assert(m1.has_frame(p));
    }
    assert forall|i: u64| i < 512 && pte_valid(#[trigger] m2.word(root, i)) implies {
        &&& roles.contains_key(pte_ppn(m2.word(root, i)))
        &&& roles[pte_ppn(m2.word(root, i))] == Role::Dir(i)
    } by {
        assert(m2.word(root, i) == m1.word(root, i));
    }
    assert forall|p: u64, i: u64|
        roles.contains_key(p) && roles[p] is Dir && i < 512 && pte_valid(
            #[trigger] m2.word(p, i),
        ) implies {
        &&& roles.contains_key(pte_ppn(m2.word(p, i)))
        &&& roles[pte_ppn(m2.word(p, i))] == Role::Leaf(roles[p]->Dir_0, i)
    } by {
        assert(m2.word(p, i) == m1.word(p, i));
    }
    assert forall|v: u64| #[trigger] leaf_slot(m2, root, v) == leaf_slot(m1, root, v) by {
        lemma_walk_roles(m1, root, roles, v);
        lemma_vpn_index_bound(v);
        let i0 = vpn_index(v, 0);
        assert(m2.word(root, i0) == m1.word(root, i0));
        if pte_valid(m1.word(root, i0)) {
            let d = pte_ppn(m1.word(root, i0));
            assert(m2.word(d, vpn_index(v, 1)) == m1.word(d, vpn_index(v, 1)));
        }
    }
    assert forall|v: u64| #[trigger] lookup(m2, root, v) == lookup(m1, root, v) by {
        lemma_walk_roles(m1, root, roles, v);
        assert(leaf_slot(m2, root, v) == leaf_slot(m1, root, v));
        match leaf_slot(m1, root, v) {
            Some((l, i)) => {
                assert(m2.word(l, i) == m1.word(l, i));
            },
            None => {},
        }
    }
    assert forall|v: u64| #[trigger] entry(m2, root, v) == entry(m1, root, v) by {
        assert(lookup(m2, root, v) == lookup(m1, root, v));
    }
}


/// `m2` is `m1` with word `i` of frame `p` set to `x`.
pub open spec fn one_word_changed(m1: PhysMemory, m2: PhysMemory, p: u64, i: u64, x: u64) -> bool {
    &&& forall|q: u64, j: u64|
        #[trigger] m2.word(q, j) == if q == p && j == i {
            x
        } else {
            m1.word(q, j)
        }
    &&& forall|q: u64| #[trigger] m2.has_frame(q) == m1.has_frame(q)
    &&& m2.free_set() == m1.free_set()
}

/// Writing the leaf entry that the walk for `vpn` reaches changes the entry
/// of exactly the page numbers that share `vpn`'s slot.
pub proof fn lemma_leaf_write(
    m1: PhysMemory,
    m2: PhysMemory,
    root: u64,
    roles: Map<u64, Role>,
    vpn: u64,
    x: u64,
)
    requires
        tree_wf(m1, root, roles),
        leaf_slot(m1, root, vpn) is Some,
        one_word_changed(m1, m2, (leaf_slot(m1, root, vpn)->0).0, (leaf_slot(m1, root, vpn)->0).1, x),
    ensures
        tree_wf(m2, root, roles),
        forall|v: u64| #[trigger] leaf_slot(m2, root, v) == leaf_slot(m1, root, v),
        forall|v: u64|
            #[trigger] lookup(m2, root, v) == if same_slot(v, vpn) {
                Some(x)
            } else {
                lookup(m1, root, v)
            },
        forall|v: u64|
            #[trigger] entry(m2, root, v) == if same_slot(v, vpn) {
                x
            } else {
                entry(m1, root, v)
            },
        dirs(m2, root) == dirs(m1, root),
        leaves(m2, root) == leaves(m1, root),
{
    let (g, k) = leaf_slot(m1, root, vpn)->0;
    lemma_walk_roles(m1, root, roles, vpn);
    lemma_vpn_index_bound(vpn);
    assert(roles[g] == Role::Leaf(vpn_index(vpn, 0), vpn_index(vpn, 1)));
    assert(k == vpn_index(vpn, 2));
    assert(dirs(m2, root) =~= dirs(m1, root)) by {
        assert forall|j0: u64| j0 < 512 implies #[trigger] m2.word(root, j0) == m1.word(root, j0) by {}
    }
    assert(leaves(m2, root) =~= leaves(m1, root)) by {
        assert forall|kk: (u64, u64)| leaves(m2, root).contains(kk) == leaves(m1, root).contains(kk) by {
            if kk.0 < 512 && kk.1 < 512 {
                assert(m2.word(root, kk.0) == m1.word(root, kk.0));
                if pte_valid(m1.word(root, kk.0)) {
                    let d = pte_ppn(m1.word(root, kk.0));
                    assert(roles[d] is Dir);
                    assert(m2.word(d, kk.1) == m1.word(d, kk.1));
                }
            }
        }
    }
    assert forall|p: u64| #[trigger] roles.contains_key(p) implies m2.has_frame(p)
        && !m2.free_set().contains(p) by {
        assert(m1.has_frame(p));
    }
    assert forall|i: u64| i < 512 && pte_valid(#[trigger] m2.word(root, i)) implies {
        &&& roles.contains_key(pte_ppn(m2.word(root, i)))
        &&& roles[pte_ppn(m2.word(root, i))] == Role::Dir(i)
    } by {
        assert(m2.word(root, i) == m1.word(root, i));
    }
    assert forall|p: u64, i: u64|
        roles.contains_key(p) && roles[p] is Dir && i < 512 && pte_valid(
            #[trigger] m2.word(p, i),
        ) implies {
        &&& roles.contains_key(pte_ppn(m2.word(p, i)))
        &&& roles[pte_ppn(m2.word(p, i))] == Role::Leaf(roles[p]->Dir_0, i)
    } by {
        assert(m2.word(p, i) == m1.word(p, i));
    }
    assert forall|v: u64| #[trigger] leaf_slot(m2, root, v) == leaf_slot(m1, root, v) by {
        lemma_walk_roles(m1, root, roles, v);
        lemma_vpn_index_bound(v);
        let i0 = vpn_index(v, 0);
        assert(m2.word(root, i0) == m1.word(root, i0));
        if pte_valid(m1.word(root, i0)) {
            let d = pte_ppn(m1.word(root, i0));
            assert(m2.word(d, vpn_index(v, 1)) == m1.word(d, vpn_index(v, 1)));
        }
    }
    assert forall|v: u64| #[trigger] lookup(m2, root, v) == if same_slot(v, vpn) {
        Some(x)
    } else {
        lookup(m1, root, v)
    } by {
        lemma_walk_roles(m1, root, roles, v);
        lemma_vpn_index_bound(v);
        assert(leaf_slot(m2, root, v) == leaf_slot(m1, root, v));
        if same_slot(v, vpn) {
            assert(leaf_slot(m1, root, v) == leaf_slot(m1, root, vpn));
        } else {
            match leaf_slot(m1, root, v) {
                Some((l, i)) => {
                    assert(roles[l] == Role::Leaf(vpn_index(v, 0), vpn_index(v, 1)));
                    assert(i == vpn_index(v, 2));
                    assert(m2.word(l, i) == m1.word(l, i));
                },
                None => {},
            }
        }
    }
    assert forall|v: u64| #[trigger] entry(m2, root, v) == if same_slot(v, vpn) {
        x
    } else {
        entry(m1, root, v)
    } by {
        assert(lookup(m2, root, v) == if same_slot(v, vpn) {
            Some(x)
        } else {
            lookup(m1, root, v)
        });
    }
}

/// Every word of frame `f` reads as zero.
pub open spec fn zeroed(mem: PhysMemory, f: u64) -> bool {
    forall|j: u64| #[trigger] mem.word(f, j) == 0
}

/// Pointing an invalid root entry `i0` at a fresh, zeroed frame `f` adds `f`
/// as a middle table and changes no entry.
pub proof fn lemma_link_root(
    m1: PhysMemory,
    m2: PhysMemory,
    root: u64,
    roles: Map<u64, Role>,
    i0: u64,
    f: u64,
    e: u64,
)
    requires
        tree_wf(m1, root, roles),
        i0 < 512,
        !pte_valid(m1.word(root, i0)),
        !roles.contains_key(f),
        m1.has_frame(f),
        !m1.free_set().contains(f),
        zeroed(m1, f),
        pte_valid(e),
        pte_ppn(e) == f,
        one_word_changed(m1, m2, root, i0, e),
    ensures
        tree_wf(m2, root, roles.insert(f, Role::Dir(i0))),
        forall|v: u64| #[trigger] entry(m2, root, v) == entry(m1, root, v),
{
    let r2 = roles.insert(f, Role::Dir(i0));
    lemma_zero_invalid();
    assert(f != root);
    assert forall|p: u64| #[trigger] r2.contains_key(p) implies m2.has_frame(p)
        && !m2.free_set().contains(p) by {
        if p != f {
            assert(m1.has_frame(p));
        }
    }
    assert forall|i: u64| i < 512 && pte_valid(#[trigger] m2.word(root, i)) implies {
        &&& r2.contains_key(pte_ppn(m2.word(root, i)))
        &&& r2[pte_ppn(m2.word(root, i))] == Role::Dir(i)
    } by {
        if i != i0 {
            assert(m2.word(root, i) == m1.word(root, i));
        }
    }
    assert forall|p: u64, i: u64|
        r2.contains_key(p) && r2[p] is Dir && i < 512 && pte_valid(
            #[trigger] m2.word(p, i),
        ) implies {
        &&& r2.contains_key(pte_ppn(m2.word(p, i)))
        &&& r2[pte_ppn(m2.word(p, i))] == Role::Leaf(r2[p]->Dir_0, i)
    } by {
        if p == f {
            assert(m2.word(p, i) == m1.word(f, i));
            assert(m1.word(f, i) == 0);
        } else {
            assert(p != root);
            assert(m2.word(p, i) == m1.word(p, i));
            assert(roles[pte_ppn(m1.word(p, i))] is Leaf);
        }
    }
    assert forall|v: u64| #[trigger] entry(m2, root, v) == entry(m1, root, v) by {
        lemma_walk_roles(m1, root, roles, v);
        lemma_vpn_index_bound(v);
        let j0 = vpn_index(v, 0);
        if j0 == i0 {
            assert(m2.word(root, j0) == e);
            assert(m2.word(f, vpn_index(v, 1)) == m1.word(f, vpn_index(v, 1)));
            assert(lookup(m2, root, v) is None);
            assert(lookup(m1, root, v) is None);
        } else {
            assert(m2.word(root, j0) == m1.word(root, j0));
            if pte_valid(m1.word(root, j0)) {
                let d = pte_ppn(m1.word(root, j0));
                assert(d != root);
                assert(m2.word(d, vpn_index(v, 1)) == m1.word(d, vpn_index(v, 1)));
                if pte_valid(m1.word(d, vpn_index(v, 1))) {
                    let l = pte_ppn(m1.word(d, vpn_index(v, 1)));
                    assert(l != root);
                    assert(m2.word(l, vpn_index(v, 2)) == m1.word(l, vpn_index(v, 2)));
                }
            }
        }
    }
}

/// Pointing an invalid entry `i1` of the middle table `d` (reached through
/// root slot `i0`) at a fresh, zeroed frame `g` adds `g` as a leaf table and
/// changes no entry.
pub proof fn lemma_link_dir(
    m1: PhysMemory,
    m2: PhysMemory,
    root: u64,
    roles: Map<u64, Role>,
    d: u64,
    i0: u64,
    i1: u64,
    g: u64,
    e: u64,
)
    requires
        tree_wf(m1, root, roles),
        roles.contains_key(d),
        roles[d] == Role::Dir(i0),
        i1 < 512,
        !pte_valid(m1.word(d, i1)),
        !roles.contains_key(g),
        m1.has_frame(g),
        !m1.free_set().contains(g),
        zeroed(m1, g),
        pte_valid(e),
        pte_ppn(e) == g,
        one_word_changed(m1, m2, d, i1, e),
    ensures
        tree_wf(m2, root, roles.insert(g, Role::Leaf(i0, i1))),
        forall|v: u64| #[trigger] entry(m2, root, v) == entry(m1, root, v),
{
    let r2 = roles.insert(g, Role::Leaf(i0, i1));
    lemma_zero_invalid();
    assert(d != root);
    assert(g != d);
    assert forall|p: u64| #[trigger] r2.contains_key(p) implies m2.has_frame(p)
        && !m2.free_set().contains(p) by {
        if p != g {
            assert(m1.has_frame(p));
        }
    }
    assert forall|i: u64| i < 512 && pte_valid(#[trigger] m2.word(root, i)) implies {
        &&& r2.contains_key(pte_ppn(m2.word(root, i)))
        &&& r2[pte_ppn(m2.word(root, i))] == Role::Dir(i)
    } by {
        assert(m2.word(root, i) == m1.word(root, i));
    }
    assert forall|p: u64, i: u64|
        r2.contains_key(p) && r2[p] is Dir && i < 512 && pte_valid(
            #[trigger] m2.word(p, i),
        ) implies {
        &&& r2.contains_key(pte_ppn(m2.word(p, i)))
        &&& r2[pte_ppn(m2.word(p, i))] == Role::Leaf(r2[p]->Dir_0, i)
    } by {
        assert(p != g);
        if p == d && i == i1 {
        } else {
            assert(m2.word(p, i) == m1.word(p, i));
            assert(roles[pte_ppn(m1.word(p, i))] is Leaf);
        }
    }
    assert forall|v: u64| #[trigger] entry(m2, root, v) == entry(m1, root, v) by {
        lemma_walk_roles(m1, root, roles, v);
        lemma_vpn_index_bound(v);
        let j0 = vpn_index(v, 0);
        let j1 = vpn_index(v, 1);
        assert(m2.word(root, j0) == m1.word(root, j0));
        if pte_valid(m1.word(root, j0)) {
            let dd = pte_ppn(m1.word(root, j0));
            if dd == d && j1 == i1 {
                assert(m2.word(dd, j1) == e);
                assert(m2.word(g, vpn_index(v, 2)) == m1.word(g, vpn_index(v, 2)));
                assert(lookup(m2, root, v) == Some(0u64));
                assert(lookup(m1, root, v) is None);
            } else {
                assert(m2.word(dd, j1) == m1.word(dd, j1));
                if pte_valid(m1.word(dd, j1)) {
                    let l = pte_ppn(m1.word(dd, j1));
                    assert(l != d);
                    assert(m2.word(l, vpn_index(v, 2)) == m1.word(l, vpn_index(v, 2)));
                }
            }
        }
    }
}


/// The table the walk for `vpn` reaches at `level` (0: the root).
pub open spec fn table_at(mem: PhysMemory, root: u64, vpn: u64, level: int) -> Option<u64> {
    if level == 0 {
        Some(root)
    } else {
        let e0 = mem.word(root, vpn_index(vpn, 0));
        if !pte_valid(e0) {
            None
        } else if level == 1 {
            Some(pte_ppn(e0))
        } else {
            let e1 = mem.word(pte_ppn(e0), vpn_index(vpn, 1));
            if !pte_valid(e1) {
                None
            } else {
                Some(pte_ppn(e1))
            }
        }
    }
}

/// The role the table reached at `level` plays for `vpn`.
pub open spec fn role_at(vpn: u64, level: int) -> Role {
    if level == 0 {
        Role::Root
    } else if level == 1 {
        Role::Dir(vpn_index(vpn, 0))
    } else {
        Role::Leaf(vpn_index(vpn, 0), vpn_index(vpn, 1))
    }
}

/// The root slots whose entry is valid: the middle tables that exist.
pub open spec fn dirs(mem: PhysMemory, root: u64) -> Set<u64> {
    Set::new(|j0: u64| j0 < 512 && pte_valid(mem.word(root, j0)))
}

/// The (root slot, middle slot) pairs that lead to a leaf table.
pub open spec fn leaves(mem: PhysMemory, root: u64) -> Set<(u64, u64)> {
    Set::new(
        |k: (u64, u64)|
            k.0 < 512 && k.1 < 512 && pte_valid(mem.word(root, k.0)) && pte_valid(
                mem.word(pte_ppn(mem.word(root, k.0)), k.1),
            ),
    )
}

/// The root and middle slot of `vpn`.
pub open spec fn leaf_key(vpn: u64) -> (u64, u64) {
    (vpn_index(vpn, 0), vpn_index(vpn, 1))
}

/// Number of tables missing on the walk for `vpn` (0, 1 or 2).
pub open spec fn missing_tables(mem: PhysMemory, root: u64, vpn: u64) -> nat {
    (if dirs(mem, root).contains(vpn_index(vpn, 0)) {
        0nat
    } else {
        1nat
    }) + (if leaves(mem, root).contains(leaf_key(vpn)) {
        0nat
    } else {
        1nat
    })
}

/// A three-level Sv39 page table: its root frame and the frames it owns.
pub struct PageTable {
    root_ppn: PhysPageNum,
    frames: Vec<PhysPageNum>,
    roles: Ghost<Map<u64, Role>>,
}

impl PageTable {
    /// The root frame.
    pub closed spec fn root(&self) -> u64 {
        self.root_ppn.0
    }

    /// The frames the table owns: its root, middle and leaf tables.
    pub closed spec fn frames(&self) -> Set<u64> {
        self.roles@.dom()
    }

    /// The table owns its frames and they form a tree in `mem`.
    pub closed spec fn wf(&self, mem: PhysMemory) -> bool {
        &&& tree_wf(mem, self.root_ppn.0, self.roles@)
        &&& forall|k: int|
            0 <= k < self.frames@.len() ==> self.roles@.contains_key(#[trigger] self.frames@[k].0)
        &&& forall|p: u64| #[trigger]
            self.roles@.contains_key(p) ==> exists|k: int|
                0 <= k < self.frames@.len() && self.frames@[k].0 == p
    }

    /// The entry that governs `vpn` in this table.
    pub open spec fn entry(&self, mem: PhysMemory, vpn: u64) -> u64 {
        entry(mem, self.root(), vpn)
    }

    /// `self` is `old` with frames taken from the free frames of `m_old`
    /// (now `m_new`), and memory outside `self`'s frames unchanged.
    pub open spec fn grown_from(&self, old: PageTable, m_old: PhysMemory, m_new: PhysMemory) -> bool {
        &&& self.root() == old.root()
        &&& old.frames().subset_of(self.frames())
        &&& forall|p: u64| #[trigger]
            self.frames().contains(p) && !old.frames().contains(p) ==> m_old.free_set().contains(p)
                && !m_new.free_set().contains(p)
        &&& m_new.free_set().subset_of(m_old.free_set())
        &&& forall|p: u64| #[trigger] m_new.has_frame(p) == m_old.has_frame(p)
        &&& forall|p: u64, i: u64|
            !self.frames().contains(p) ==> #[trigger] m_new.word(p, i) == m_old.word(p, i)
    }

    /// Whether the middle table and the leaf table on the walk for `vpn`
    /// exist.
    pub fn tables_present(&self, mem: &PhysMemory, vpn: VirtPageNum) -> (r: (bool, bool))
        requires
            mem.wf(),
        ensures
            r.0 == dirs(*mem, self.root()).contains(vpn_index(vpn.0, 0)),
            r.1 == leaves(*mem, self.root()).contains(leaf_key(vpn.0)),
    {
        proof {
            lemma_vpn_index_bound(vpn.0);
        }
        let idxs = vpn.indexes();
        let e0 = PageTableEntry { bits: mem.read_word(self.root_ppn, idxs[0]) };
        if !e0.is_valid() {
            return (false, false);
        }
        let e1 = PageTableEntry { bits: mem.read_word(e0.ppn(), idxs[1]) };
        (true, e1.is_valid())
    }

    /// The frames of a well-formed table exist and are not free.
    pub proof fn lemma_frames(&self, mem: PhysMemory)
        requires
            self.wf(mem),
        ensures
            self.frames().contains(self.root()),
            forall|p: u64| #[trigger]
                self.frames().contains(p) ==> mem.has_frame(p) && !mem.free_set().contains(p),
    {
    }

    /// A table that memory agrees with on the table's frames is unchanged.
    pub proof fn lemma_frame(&self, m1: PhysMemory, m2: PhysMemory)
        requires
            self.wf(m1),
            agree_on(m1, m2, self.frames()),
            forall|p: u64| #[trigger] m2.has_frame(p) == m1.has_frame(p),
            forall|p: u64| self.frames().contains(p) ==> !#[trigger] m2.free_set().contains(p),
        ensures
            self.wf(m2),
            forall|v: u64| #[trigger] lookup(m2, self.root(), v) == lookup(m1, self.root(), v),
            forall|v: u64| #[trigger] entry(m2, self.root(), v) == entry(m1, self.root(), v),
            dirs(m2, self.root()) == dirs(m1, self.root()),
            leaves(m2, self.root()) == leaves(m1, self.root()),
    {
        lemma_tree_frame(m1, m2, self.root_ppn.0, self.roles@);
    }

    /// A table that owns one fresh root frame and maps nothing.
    pub fn new(mem: &mut PhysMemory) -> (r: PageTable)
        requires
            old(mem).wf(),
            old(mem).free_count() > 0,
        ensures
            final(mem).wf(),
            r.wf(*final(mem)),
            r.frames() == set![r.root()],
            old(mem).free_set().contains(r.root()),
            final(mem).free_set() == old(mem).free_set().remove(r.root()),
            final(mem).free_count() + 1 == old(mem).free_count(),
            forall|p: u64| #[trigger] final(mem).has_frame(p) == old(mem).has_frame(p),
            forall|p: u64, i: u64|
                p != r.root() ==> #[trigger] final(mem).word(p, i) == old(mem).word(p, i),
            forall|v: u64| #[trigger] lookup(*final(mem), r.root(), v) is None,
            forall|v: u64| #[trigger] entry(*final(mem), r.root(), v) == 0,
    {
        let ghost m0 = *mem;
        let frame = mem.frame_alloc().unwrap();
        proof {
            m0.lemma_wf();
        }
        let mut frames: Vec<PhysPageNum> = Vec::new();
        frames.push(frame);
        let r = PageTable {
            root_ppn: frame,
            frames,
            roles: Ghost(Map::empty().insert(frame.0, Role::Root)),
        };
        proof {
            mem.lemma_wf();
            lemma_zero_invalid();
            assert(r.roles@.dom() =~= set![frame.0]);
            assert(r.frames@[0].0 == frame.0);
            assert(mem.has_frame(frame.0));
            assert(!mem.free_set().contains(frame.0));
            assert forall|i: u64| i < 512 && pte_valid(#[trigger] mem.word(r.root(), i)) implies false by {
                assert(mem.word(frame.0, i) == 0);
            }
            assert forall|p: u64| #[trigger] r.roles@.contains_key(p) implies exists|k: int|
                0 <= k < r.frames@.len() && r.frames@[k].0 == p by {
                assert(r.frames@[0].0 == p);
            }
            assert forall|v: u64| #[trigger] lookup(*mem, r.root(), v) is None by {
                assert(mem.word(frame.0, vpn_index(v, 0)) == 0);
            }
        }
        r
    }

    /// A view of the table whose root frame is named by `satp`; it owns no
    /// frames.
    pub fn from_token(satp: u64) -> (r: PageTable)
        ensures
            r.root() == satp % PPN_LIMIT,
            r.frames() == Set::<u64>::empty(),
    {
        assert(satp & 0xfff_ffff_ffffu64 == satp % 0x1000_0000_0000) by (bit_vector);
        let r = PageTable {
            root_ppn: PhysPageNum(satp & PPN_MASK),
            frames: Vec::new(),
            roles: Ghost(Map::empty()),
        };
        assert(r.roles@.dom() =~= Set::<u64>::empty());
        r
    }

    /// The value of the `satp` register that selects this table (Sv39 mode).
    pub fn token(&self) -> (r: u64)
        ensures
            r == 0x8000_0000_0000_0000u64 | self.root(),
    {
        assert(8u64 << 60u64 == 0x8000_0000_0000_0000u64) by (bit_vector);
        8u64 << 60u64 | self.root_ppn.0
    }

    /// Where the walk for `vpn` finds its leaf entry, or `None` when an upper
    /// entry on the way is not valid.
    fn find_pte(&self, mem: &PhysMemory, vpn: VirtPageNum) -> (r: Option<(PhysPageNum, u64)>)
        requires
            mem.wf(),
        ensures
            r == match leaf_slot(*mem, self.root(), vpn.0) {
                Some((p, i)) => Some((PhysPageNum(p), i)),
                None => None,
            },
    {
        let idxs = vpn.indexes();
        let mut ppn = self.root_ppn;
        let mut i: usize = 0;
        while i < 2
            invariant
                mem.wf(),
                i <= 2,
                idxs[0] == vpn_index(vpn.0, 0),
                idxs[1] == vpn_index(vpn.0, 1),
                idxs[2] == vpn_index(vpn.0, 2),
                table_at(*mem, self.root(), vpn.0, i as int) == Some(ppn.0),
            decreases 2 - i,
        {
            let item = idxs[i];
            let pte = PageTableEntry { bits: mem.read_word(ppn, item) };
            if pte.is_valid() {
                ppn = pte.ppn();
            } else {
                return None;
            }
            i = i + 1;
        }
        Some((ppn, idxs[2]))
    }

    /// One step of the walk for `vpn` at `level` (0: root, 1: middle) from
    /// `table`: the table that entry `idx` of `table` leads to, created from a
    /// fresh, cleared frame (linked with a valid-only entry) when the entry is
    /// not valid.
    fn ensure_table(
        &mut self,
        mem: &mut PhysMemory,
        vpn: VirtPageNum,
        table: PhysPageNum,
        level: usize,
        idx: u64,
    ) -> (r: PhysPageNum)
        requires
            old(mem).wf(),
            old(self).wf(*old(mem)),
            level < 2,
            idx == vpn_index(vpn.0, level as int),
            table_at(*old(mem), old(self).root(), vpn.0, level as int) == Some(table.0),
            !pte_valid(old(mem).word(table.0, idx)) ==> old(mem).free_count() >= 1,
        ensures
            final(mem).wf(),
            final(self).wf(*final(mem)),
            final(self).grown_from(*old(self), *old(mem), *final(mem)),
            table_at(*final(mem), final(self).root(), vpn.0, level + 1) == Some(r.0),
            forall|v: u64| #[trigger] entry(*final(mem), final(self).root(), v) == entry(*old(mem), old(self).root(), v),
            level == 0 ==> dirs(*final(mem), final(self).root()) == dirs(*old(mem), old(self).root()).insert(idx),
            level == 0 ==> leaves(*final(mem), final(self).root()) == leaves(*old(mem), old(self).root()),
            level == 1 ==> dirs(*final(mem), final(self).root()) == dirs(*old(mem), old(self).root()),
            level == 1 ==> leaves(*final(mem), final(self).root()) == leaves(*old(mem), old(self).root()).insert(
                (vpn_index(vpn.0, 0), idx),
            ),
            pte_valid(old(mem).word(table.0, idx)) ==> {
                &&& r.0 == pte_ppn(old(mem).word(table.0, idx))
                &&& *final(mem) == *old(mem)
                &&& final(self).frames() == old(self).frames()
            },
            !pte_valid(old(mem).word(table.0, idx)) ==> {
                &&& r.0 == old(mem).next_free()
                &&& old(mem).free_set().contains(r.0)
                &&& !old(self).frames().contains(r.0)
                &&& final(self).frames() == old(self).frames().insert(r.0)
                &&& final(mem).free_set() == old(mem).free_set().remove(r.0)
                &&& final(mem).free_count() + 1 == old(mem).free_count()
                &&& final(mem).word(table.0, idx) == pte_encode(r.0, PTE_V)
                &&& zeroed(*final(mem), r.0)
                &&& forall|p: u64, i: u64|
                    p != r.0 && !(p == table.0 && i == idx) ==> #[trigger] final(mem).word(p, i)
                        == old(mem).word(p, i)
            },
    {
        let ghost old_self = *self;
        let ghost m0 = *mem;
        let ghost roles0 = self.roles@;
        proof {
            lemma_vpn_index_bound(vpn.0);
            mem.lemma_wf();
            lemma_walk_roles(*mem, self.root(), self.roles@, vpn.0);
            assert(self.roles@.contains_key(table.0));
            assert(self.roles@[table.0] == role_at(vpn.0, level as int));
        }
        let pte = PageTableEntry { bits: mem.read_word(table, idx) };
        if pte.is_valid() {
            proof {
                lemma_walk_roles(*mem, self.root(), self.roles@, vpn.0);
            }
            return pte.ppn();
        }
        let frame = mem.frame_alloc().unwrap();
        let ghost m1 = *mem;
        proof {
            assert(!roles0.contains_key(frame.0));
            assert(agree_on(m0, m1, roles0.dom()));
            lemma_tree_frame(m0, m1, self.root(), roles0);
            m0.lemma_wf();
            assert(m1.has_frame(frame.0));
            assert(frame.0 < PPN_LIMIT);
            lemma_pte_encode(frame.0, PTE_V);
            assert(1u8 & 1u8 != 0) by (bit_vector);
            assert(zeroed(m1, frame.0));
            assert(m1.word(table.0, idx) == m0.word(table.0, idx));
        }
        let new_pte = PageTableEntry::new(frame, PTEFlags::from_bits_truncate(PTE_V));
        mem.write_word(table, idx, new_pte.bits);
        let ghost m2 = *mem;
        proof {
            lemma_zero_invalid();
            if level == 0 {
                lemma_link_root(m1, m2, self.root(), roles0, idx, frame.0, new_pte.bits);
                assert(dirs(m2, self.root()) =~= dirs(m0, self.root()).insert(idx)) by {
                    assert forall|j0: u64| j0 < 512 && j0 != idx implies #[trigger] m2.word(self.root(), j0) == m0.word(self.root(), j0) by {}
                }
                assert(leaves(m2, self.root()) =~= leaves(m0, self.root())) by {
                    assert forall|kk: (u64, u64)| leaves(m2, self.root()).contains(kk) == leaves(m0, self.root()).contains(kk) by {
                        if kk.0 < 512 && kk.1 < 512 {
                            if kk.0 == idx {
                                assert(m2.word(frame.0, kk.1) == 0);
                            } else {
                                assert(m2.word(self.root(), kk.0) == m0.word(self.root(), kk.0));
                                if pte_valid(m0.word(self.root(), kk.0)) {
                                    let d = pte_ppn(m0.word(self.root(), kk.0));
                                    assert(roles0.contains_key(d));
                                    assert(m2.word(d, kk.1) == m0.word(d, kk.1));
                                }
                            }
                        }
                    }
                }
            } else {
                lemma_link_dir(m1, m2, self.root(), roles0, table.0, vpn_index(vpn.0, 0), idx, frame.0, new_pte.bits);
                assert(table.0 != self.root());
                assert(dirs(m2, self.root()) =~= dirs(m0, self.root())) by {
                    assert forall|j0: u64| j0 < 512 implies #[trigger] m2.word(self.root(), j0) == m0.word(self.root(), j0) by {}
                }
                assert(leaves(m2, self.root()) =~= leaves(m0, self.root()).insert((vpn_index(vpn.0, 0), idx))) by {
                    assert forall|kk: (u64, u64)| leaves(m2, self.root()).contains(kk) == leaves(m0, self.root()).insert((vpn_index(vpn.0, 0), idx)).contains(kk) by {
                        if kk.0 < 512 && kk.1 < 512 {
                            assert(m2.word(self.root(), kk.0) == m0.word(self.root(), kk.0));
                            if pte_valid(m0.word(self.root(), kk.0)) {
                                let d = pte_ppn(m0.word(self.root(), kk.0));
                                assert(roles0[d] == Role::Dir(kk.0));
                                if d == table.0 {
                                    assert(kk.0 == vpn_index(vpn.0, 0));
                                } else {
                                    assert(m2.word(d, kk.1) == m0.word(d, kk.1));
                                }
                            }
                        }
                    }
                }
            }
        }
        let ghost frames0 = self.frames@;
        self.frames.push(frame);
        self.roles = Ghost(roles0.insert(frame.0, role_at(vpn.0, level as int + 1)));
        proof {
            assert forall|k: int| 0 <= k < self.frames@.len() implies self.roles@.contains_key(#[trigger] self.frames@[k].0) by {
                if k < frames0.len() {
                    assert(self.frames@[k] == frames0[k]);
                }
            }
            assert forall|p: u64| #[trigger] self.roles@.contains_key(p) implies exists|k: int|
                0 <= k < self.frames@.len() && self.frames@[k].0 == p by {
                if p == frame.0 {
                    assert(self.frames@[frames0.len() as int].0 == p);
                } else {
                    let k = choose|k: int| 0 <= k < frames0.len() && frames0[k].0 == p;
                    assert(self.frames@[k].0 == p);
                }
            }
            assert(self.frames() =~= old_self.frames().insert(frame.0));
            assert(pte_valid(new_pte.bits));
            assert(m2.word(table.0, idx) == new_pte.bits);
            if level == 1 {
                assert(table_at(m2, self.root(), vpn.0, 1) == Some(table.0));
            }
        }
        frame
    }

    /// Like `find_pte`, but creating the middle and leaf tables on the way
    /// from free frames where they are missing: exactly the missing tables are
    /// added, each a fresh, cleared frame linked by a valid-only entry.
    fn find_pte_create(&mut self, mem: &mut PhysMemory, vpn: VirtPageNum) -> (r: Option<(PhysPageNum, u64)>)
        requires
            old(mem).wf(),
            old(self).wf(*old(mem)),
            old(mem).free_count() >= missing_tables(*old(mem), old(self).root(), vpn.0),
        ensures
            final(mem).wf(),
            final(self).wf(*final(mem)),
            final(self).grown_from(*old(self), *old(mem), *final(mem)),
            final(mem).free_count() + missing_tables(*old(mem), old(self).root(), vpn.0)
                == old(mem).free_count(),
            dirs(*final(mem), final(self).root()) == dirs(*old(mem), old(self).root()).insert(vpn_index(vpn.0, 0)),
            leaves(*final(mem), final(self).root()) == leaves(*old(mem), old(self).root()).insert(leaf_key(vpn.0)),
            r matches Some((p, i)) && leaf_slot(*final(mem), final(self).root(), vpn.0) == Some((p.0, i)),
            forall|v: u64| #[trigger] entry(*final(mem), final(self).root(), v) == entry(*old(mem), old(self).root(), v),
            ({
                let root = old(self).root();
                let i0 = vpn_index(vpn.0, 0);
                let i1 = vpn_index(vpn.0, 1);
                let d = pte_ppn(final(mem).word(root, i0));
                let l = pte_ppn(final(mem).word(d, i1));
                &&& !dirs(*old(mem), root).contains(i0) ==> {
                    &&& final(mem).word(root, i0) == pte_encode(d, PTE_V)
                    &&& old(mem).free_set().contains(d)
                    &&& forall|j: u64| j != i1 ==> #[trigger] final(mem).word(d, j) == 0
                }
                &&& !leaves(*old(mem), root).contains(leaf_key(vpn.0)) ==> {
                    &&& final(mem).word(d, i1) == pte_encode(l, PTE_V)
                    &&& old(mem).free_set().contains(l)
                    &&& zeroed(*final(mem), l)
                }
                &&& forall|p: u64, j: u64|
                    old(self).frames().contains(p) && !(p == root && j == i0) && !(p == d && j == i1)
                        ==> #[trigger] final(mem).word(p, j) == old(mem).word(p, j)
                &&& final(self).frames() == old(self).frames().union(
                    if !dirs(*old(mem), root).contains(i0) { set![d] } else { Set::empty() },
                ).union(
                    if !leaves(*old(mem), root).contains(leaf_key(vpn.0)) { set![l] } else { Set::empty() },
                )
                &&& !dirs(*old(mem), root).contains(i0) ==> !old(self).frames().contains(d)
                &&& !leaves(*old(mem), root).contains(leaf_key(vpn.0)) ==> !old(self).frames().contains(l)
                    && l != d
            }),
    {
        let ghost m0 = *mem;
        let ghost old_self = *self;
        let idxs = vpn.indexes();
        proof {
            lemma_vpn_index_bound(vpn.0);
        }
        let root = self.root_ppn;
        let d = self.ensure_table(mem, vpn, root, 0, idxs[0]);
        let ghost m1 = *mem;
        let ghost s1 = *self;
        proof {
            lemma_zero_invalid();
            if !pte_valid(m0.word(root.0, idxs[0])) {
                assert(!dirs(m0, root.0).contains(idxs[0]));
                assert(!leaves(m0, root.0).contains(leaf_key(vpn.0)));
                assert(m1.word(d.0, idxs[1]) == 0);
            }
        }
        let l = self.ensure_table(mem, vpn, d, 1, idxs[1]);
        proof {
            let m2 = *mem;
            assert(table_at(m2, self.root(), vpn.0, 2) == Some(l.0));
            if pte_valid(m0.word(root.0, idxs[0])) {
                assert(dirs(m0, root.0).contains(idxs[0]));
                if pte_valid(m1.word(d.0, idxs[1])) {
                    assert(leaves(m0, root.0).contains(leaf_key(vpn.0)));
                } else {
                    assert(!leaves(m0, root.0).contains(leaf_key(vpn.0)));
                }
            }
        }
        Some((l, idxs[2]))
    }

    /// Map `vpn` to `ppn` with `flags` (and the valid flag), creating the
    /// middle and leaf tables on the way where they are missing. The page
    /// must not be mapped already.
    pub fn map(&mut self, mem: &mut PhysMemory, vpn: VirtPageNum, ppn: PhysPageNum, flags: PTEFlags)
        requires
            old(mem).wf(),
            old(self).wf(*old(mem)),
            old(mem).free_count() >= missing_tables(*old(mem), old(self).root(), vpn.0),
            !pte_valid(old(self).entry(*old(mem), vpn.0)),
        ensures
            final(mem).wf(),
            final(self).wf(*final(mem)),
            final(self).grown_from(*old(self), *old(mem), *final(mem)),
            final(mem).free_count() + missing_tables(*old(mem), old(self).root(), vpn.0)
                == old(mem).free_count(),
            dirs(*final(mem), final(self).root()) == dirs(*old(mem), old(self).root()).insert(vpn_index(vpn.0, 0)),
            leaves(*final(mem), final(self).root()) == leaves(*old(mem), old(self).root()).insert(leaf_key(vpn.0)),
            lookup(*final(mem), final(self).root(), vpn.0) == Some(pte_encode(ppn.0, flags.bits | PTE_V)),
            forall|v: u64|
                #[trigger] final(self).entry(*final(mem), v) == if same_slot(v, vpn.0) {
                    pte_encode(ppn.0, flags.bits | PTE_V)
                } else {
                    old(self).entry(*old(mem), v)
                },
    {
        let ghost m0 = *mem;
        let ghost old_self = *self;
        let slot = self.find_pte_create(mem, vpn);
        let (p, i) = slot.unwrap();
        let ghost m1 = *mem;
        proof {
            lemma_walk_roles(m1, self.root(), self.roles@, vpn.0);
            lemma_vpn_index_bound(vpn.0);
            assert(self.roles@.contains_key(p.0));
            assert(lookup(m1, self.root(), vpn.0) == Some(m1.word(p.0, i)));
        }
        let pte = PageTableEntry::new(ppn, flags.union(PTEFlags::from_bits_truncate(PTE_V)));
        mem.write_word(p, i, pte.bits);
        proof {
            lemma_leaf_write(m1, *mem, self.root(), self.roles@, vpn.0, pte.bits);
            assert(same_slot(vpn.0, vpn.0));
        }
    }

    /// Clear the leaf entry of `vpn`, which must be mapped.
    pub fn unmap(&mut self, mem: &mut PhysMemory, vpn: VirtPageNum)
        requires
            old(mem).wf(),
            old(self).wf(*old(mem)),
            lookup(*old(mem), old(self).root(), vpn.0) is Some,
            pte_valid(lookup(*old(mem), old(self).root(), vpn.0)->0),
        ensures
            *final(self) == *old(self),
            final(mem).wf(),
            final(self).wf(*final(mem)),
            final(mem).free_set() == old(mem).free_set(),
            final(mem).free_count() == old(mem).free_count(),
            forall|p: u64| #[trigger] final(mem).has_frame(p) == old(mem).has_frame(p),
            forall|p: u64, i: u64|
                !final(self).frames().contains(p) ==> #[trigger] final(mem).word(p, i) == old(mem).word(p, i),
            lookup(*final(mem), final(self).root(), vpn.0) == Some(0u64),
            dirs(*final(mem), final(self).root()) == dirs(*old(mem), old(self).root()),
            leaves(*final(mem), final(self).root()) == leaves(*old(mem), old(self).root()),
            forall|v: u64|
                #[trigger] lookup(*final(mem), final(self).root(), v) == if same_slot(v, vpn.0) {
                    Some(0u64)
                } else {
                    lookup(*old(mem), old(self).root(), v)
                },
            forall|v: u64|
                #[trigger] final(self).entry(*final(mem), v) == if same_slot(v, vpn.0) {
                    0
                } else {
                    old(self).entry(*old(mem), v)
                },
    {
        let ghost m0 = *mem;
        let (p, i) = self.find_pte(mem, vpn).unwrap();
        proof {
            lemma_walk_roles(m0, self.root(), self.roles@, vpn.0);
            lemma_vpn_index_bound(vpn.0);
            assert(self.roles@.contains_key(p.0));
        }
        mem.write_word(p, i, PageTableEntry::empty().bits);
        proof {
            lemma_leaf_write(m0, *mem, self.root(), self.roles@, vpn.0, 0);
            assert(same_slot(vpn.0, vpn.0));
        }
    }

    /// The leaf entry of `vpn`, or `None` when the walk stops early.
    pub fn translate(&self, mem: &PhysMemory, vpn: VirtPageNum) -> (r: Option<PageTableEntry>)
        requires
            mem.wf(),
        ensures
            r == match lookup(*mem, self.root(), vpn.0) {
                Some(e) => Some(PageTableEntry { bits: e }),
                None => None,
            },
    {
        match self.find_pte(mem, vpn) {
            Some((p, i)) => Some(PageTableEntry { bits: mem.read_word(p, i) }),
            None => None,
        }
    }

    /// The physical address that `va` maps to, or `None` when the walk stops
    /// early.
    pub fn translate_va(&self, mem: &PhysMemory, va: &VirtAddr) -> (r: Option<PhysAddr>)
        requires
            mem.wf(),
        ensures
            r == match lookup(*mem, self.root(), va.0 / 4096) {
                Some(e) => Some(PhysAddr((pte_ppn(e) * 4096 + va.0 % 4096) as u64)),
                None => None,
            },
    {
        match self.find_pte(mem, va.floor()) {
            Some((p, i)) => {
                let pte = PageTableEntry { bits: mem.read_word(p, i) };
                let aligned_pa = PhysAddr::from_ppn(pte.ppn());
                let offset = va.page_offset();
                let q = pte.ppn().0;
                assert(q * 4096 + offset < 0x100_0000_0000_0000) by (nonlinear_arith)
                    requires
                        q < 0x1000_0000_0000,
                        offset < 4096,
                ;
                Some(PhysAddr::from_u64(aligned_pa.0 + offset))
            },
            None => None,
        }
    }
}


/// Calls `String::push` of std, which appends `c` to `s`; its contract,
/// believed without proof, says that the characters of `s` afterwards are
/// those before followed by `c`, as std documents.
#[verifier::external_body]
fn string_push(s: &mut String, c: char)
    ensures
        final(s)@ == old(s)@.push(c),
{
    s.push(c);
}

/// The physical address that the user address `va` (its low 39 bits) maps
/// to through the table rooted at `root`.
pub open spec fn user_pa(mem: PhysMemory, root: u64, va: u64) -> Option<u64> {
    let v = va % VA_LIMIT;
    match lookup(mem, root, v / 4096) {
        Some(e) => Some((pte_ppn(e) * 4096 + v % 4096) as u64),
        None => None,
    }
}

/// The page of user address `va` (its low 39 bits) is mapped by a valid
/// entry of the table rooted at `root`.
pub open spec fn user_page_valid(mem: PhysMemory, root: u64, va: u64) -> bool {
    pte_valid(entry(mem, root, (va % VA_LIMIT) / 4096))
}

/// The physical address of the object at user address `va`; `None` when it
/// does not translate or translates to the null address.
pub open spec fn user_obj_pa(mem: PhysMemory, root: u64, va: u64) -> Option<u64> {
    match user_pa(mem, root, va) {
        Some(pa) => if pa == 0 {
            None
        } else {
            Some(pa)
        },
        None => None,
    }
}

/// The byte at user address `va`; `None` when it does not translate or
/// translates to the null address.
pub open spec fn user_byte(mem: PhysMemory, root: u64, va: u64) -> Option<u8> {
    match user_pa(mem, root, va) {
        Some(pa) => if pa == 0 {
            None
        } else {
            Some(mem.byte(pa))
        },
        None => None,
    }
}

/// Reading a string stops at user address `va`: at a zero byte or where
/// the byte cannot be read.
pub open spec fn str_end(mem: PhysMemory, root: u64, va: u64) -> bool {
    match user_byte(mem, root, va) {
        Some(b) => b == 0,
        None => true,
    }
}

/// Reading a string from user address `ptr` takes `n` bytes: none of them
/// ends it, the byte after them does, and no address overflows.
pub open spec fn str_len_is(mem: PhysMemory, root: u64, ptr: u64, n: nat) -> bool {
    &&& ptr + n <= u64::MAX
    &&& str_end(mem, root, (ptr + n) as u64)
    &&& forall|a: u64| ptr <= a < ptr + n ==> !#[trigger] str_end(mem, root, a)
}

/// The string at user address `ptr`: its bytes up to the first one that ends
/// it, each taken as a character.
pub open spec fn user_str(mem: PhysMemory, root: u64, ptr: u64) -> Seq<char> {
    let n = choose|n: nat| str_len_is(mem, root, ptr, n);
    Seq::new(n, |j: int| (user_byte(mem, root, (ptr + j) as u64)->0) as char)
}

/// A string has one length.
proof fn lemma_str_len_unique(mem: PhysMemory, root: u64, ptr: u64, n1: nat, n2: nat)
    requires
        str_len_is(mem, root, ptr, n1),
        str_len_is(mem, root, ptr, n2),
    ensures
        n1 == n2,
{
    if n1 < n2 {
        assert(!str_end(mem, root, (ptr + n1) as u64));
    } else if n2 < n1 {
        assert(!str_end(mem, root, (ptr + n2) as u64));
    }
}

/// The root frame that the `satp` value `token` names.
pub open spec fn token_root(token: u64) -> u64 {
    token % PPN_LIMIT
}

/// The byte at a physical address, `None` at the null address.
fn phys_byte(mem: &PhysMemory, pa: PhysAddr) -> (r: Option<u8>)
    requires
        mem.wf(),
    ensures
        r == if pa.0 == 0 {
            None
        } else {
            Some(mem.byte(pa.0))
        },
{
    if pa.0 == 0 {
        None
    } else {
        Some(mem.read_byte(pa))
    }
}

/// The byte at user address `va` through `page_table`.
fn read_user_byte(mem: &PhysMemory, page_table: &PageTable, va: u64) -> (r: Option<u8>)
    requires
        mem.wf(),
    ensures
        r == user_byte(*mem, page_table.root(), va),
{
    match page_table.translate_va(mem, &VirtAddr::from_u64(va)) {
        Some(addr) => phys_byte(mem, addr),
        None => None,
    }
}

/// The user string at `ptr` in the address space named by `token`: the bytes
/// up to (not including) the first zero byte or the first byte that cannot be
/// read, each taken as a character.
pub fn translated_str(mem: &PhysMemory, token: u64, ptr: u64) -> (r: String)
    requires
        mem.wf(),
        exists|n: nat| ptr + n <= u64::MAX && #[trigger] str_end(*mem, token_root(token), (ptr + n) as u64),
    ensures
        ptr + r@.len() <= u64::MAX,
        str_end(*mem, token_root(token), (ptr + r@.len()) as u64),
        forall|a: u64| ptr <= a < ptr + r@.len() ==> !#[trigger] str_end(*mem, token_root(token), a),
        forall|j: int|
            0 <= j < r@.len() ==> #[trigger] r@[j]
                == (user_byte(*mem, token_root(token), (ptr + j) as u64)->0) as char,
        r@ == user_str(*mem, token_root(token), ptr),
{
    let page_table = PageTable::from_token(token);
    let ghost root = token_root(token);
    let ghost n = choose|n: nat| ptr + n <= u64::MAX && #[trigger] str_end(*mem, token_root(token), (ptr + n) as u64);
    let mut string = String::new();
    let mut va = ptr;
    let mut ch = read_user_byte(mem, &page_table, va);
    let mut more = match ch {
        Some(c) => c != 0,
        None => false,
    };
    while more
        invariant
            mem.wf(),
            page_table.root() == root,
            root == token_root(token),
            ptr <= va <= ptr + n,
            ptr + n <= u64::MAX,
            str_end(*mem, root, (ptr + n) as u64),
            ch == user_byte(*mem, root, va),
            more == !str_end(*mem, root, va),
            string@.len() == va - ptr,
            forall|a: u64| ptr <= a < va ==> !#[trigger] str_end(*mem, root, a),
            forall|j: int|
                0 <= j < va - ptr ==> #[trigger] string@[j]
                    == (user_byte(*mem, root, (ptr + j) as u64)->0) as char,
        decreases ptr + n - va,
    {
        assert(va != ptr + n);
        let c = ch.unwrap();
        let ghost s0 = string@;
        string_push(&mut string, c as char);
        assert(string@ == s0.push(c as char));
        assert forall|j: int|
            0 <= j < va + 1 - ptr implies #[trigger] string@[j]
                == (user_byte(*mem, root, (ptr + j) as u64)->0) as char by {
            if j < va - ptr {
                assert(string@[j] == s0[j]);
            } else {
                assert(j == va - ptr);
                assert((ptr + j) as u64 == va);
            }
        }
        va = va + 1;
        ch = read_user_byte(mem, &page_table, va);
        more = match ch {
            Some(c) => c != 0,
            None => false,
        };
    }
    proof {
        let len = string@.len();
        assert(str_len_is(*mem, root, ptr, len));
        let n2 = choose|n: nat| str_len_is(*mem, root, ptr, n);
        lemma_str_len_unique(*mem, root, ptr, len, n2);
        assert(string@ =~= user_str(*mem, root, ptr));
    }
    string
}

/// The physical address that user pointer `ptr` maps to in the address space
/// named by `token`; `None` when it does not translate or translates to the
/// null address.
pub fn translated_refmut<T>(mem: &PhysMemory, token: u64, ptr: u64) -> (r: Option<PhysAddr>)
    requires
        mem.wf(),
    ensures
        r == match user_pa(*mem, token_root(token), ptr) {
            Some(pa) => if pa == 0 {
                None
            } else {
                Some(PhysAddr(pa))
            },
            None => None,
        },
{
    let page_table = PageTable::from_token(token);
    let va = ptr;
    match page_table.translate_va(mem, &VirtAddr::from_u64(va)) {
        Some(p) => if p.0 == 0 {
            None
        } else {
            Some(p)
        },
        None => None,
    }
}

/// The object of `size` bytes at user address `ptr` (its low 39 bits) lies
/// within one page; it may end exactly at the page's end.
pub open spec fn object_in_page(ptr: u64, size: int) -> bool {
    (ptr % VA_LIMIT) % 4096 + size <= 4096
}

/// The physical address of a `T` at user pointer `ptr` in the address space
/// named by `token`, for an object that lies within one page; `None` when the
/// page does not translate or the object would be at the null address.
pub fn get_mut<T>(mem: &PhysMemory, token: u64, ptr: u64) -> (r: Option<PhysAddr>)
    requires
        mem.wf(),
        ptr + vstd::layout::size_of::<T>() <= u64::MAX,
        user_pa(*mem, token_root(token), ptr) is Some ==> object_in_page(ptr, vstd::layout::size_of::<T>() as int),
    ensures
        r == match user_obj_pa(*mem, token_root(token), ptr) {
            Some(pa) => Some(PhysAddr(pa)),
            None => None,
        },
{
    let start = ptr;
    let page_table = PageTable::from_token(token);
    let start_va = VirtAddr::from_u64(start);
    let page_table_entry = page_table.translate(mem, start_va.floor());
    if let Some(page_table_entry) = page_table_entry {
        let ppn = page_table_entry.ppn();
        let lo = start_va.page_offset();
        // the object, `lo .. lo + size_of::<T>()`, ends within the page
        assert(lo + vstd::layout::size_of::<T>() <= 4096);
        let base = PhysAddr::from_ppn(ppn);
        let q = ppn.0;
        assert(q * 4096 + lo < 0x100_0000_0000_0000) by (nonlinear_arith)
            requires
                q < 0x1000_0000_0000,
                lo < 4096,
        ;
        let pa = base.0 + lo;
        if pa == 0 {
            None
        } else {
            Some(PhysAddr(pa))
        }
    } else {
        None
    }
}


/// Number of pages that the user buffer `[ptr, ptr + len)` touches.
pub open spec fn buffer_pages(ptr: u64, len: u64) -> int {
    if len == 0 {
        0
    } else {
        (ptr + len - 1) / 4096 - ptr / 4096 + 1
    }
}

/// First user address of piece `k` of the buffer `[ptr, ptr + len)`.
pub open spec fn piece_start(ptr: u64, k: int) -> int {
    let s = (ptr / 4096 + k) * 4096;
    if k == 0 {
        ptr as int
    } else {
        s
    }
}

/// One past the last user address of piece `k` of the buffer.
pub open spec fn piece_end(ptr: u64, len: u64, k: int) -> int {
    let e = (ptr / 4096 + k + 1) * 4096;
    if e < ptr + len {
        e
    } else {
        ptr + len
    }
}

/// Facts about one piece of a buffer: it lies in page `ptr / 4096 + k` and
/// the next piece starts where it ends.
proof fn lemma_piece(ptr: u64, len: u64, k: int)
    requires
        0 <= k < buffer_pages(ptr, len),
        ptr + len <= VA_LIMIT,
    ensures
        piece_start(ptr, k) / 4096 == ptr / 4096 + k,
        piece_start(ptr, k) < piece_end(ptr, len, k) <= (ptr / 4096 + k + 1) * 4096,
        piece_end(ptr, len, k) % 4096 == 0 ==> piece_end(ptr, len, k) - piece_start(ptr, k)
            == 4096 - piece_start(ptr, k) % 4096,
        piece_end(ptr, len, k) % 4096 != 0 ==> piece_end(ptr, len, k) - piece_start(ptr, k)
            == piece_end(ptr, len, k) % 4096 - piece_start(ptr, k) % 4096,
        k + 1 < buffer_pages(ptr, len) ==> piece_end(ptr, len, k) == piece_start(ptr, k + 1),
        k + 1 == buffer_pages(ptr, len) ==> piece_end(ptr, len, k) == ptr + len,
{
    let p0 = ptr / 4096;
    let end = ptr + len;
    let e1 = (end - 1) / 4096;
    let q = p0 + k;
    assert(p0 * 4096 <= ptr < p0 * 4096 + 4096) by (nonlinear_arith)
        requires p0 == ptr / 4096;
    assert(e1 * 4096 <= end - 1 < e1 * 4096 + 4096) by (nonlinear_arith)
        requires e1 == (end - 1) / 4096, end >= 1;
    assert(q * 4096 == p0 * 4096 + k * 4096) by (nonlinear_arith)
        requires q == p0 + k;
    assert(k * 4096 >= 0) by (nonlinear_arith)
        requires k >= 0;
    let vs = piece_start(ptr, k);
    let ve = piece_end(ptr, len, k);
    assert(vs / 4096 == q) by (nonlinear_arith)
        requires
            vs == if k == 0 { ptr as int } else { q * 4096 },
            k == 0 ==> q == p0,
            p0 * 4096 <= ptr < p0 * 4096 + 4096,
    ;
    assert((q + 1) * 4096 == q * 4096 + 4096) by (nonlinear_arith);
    assert(q <= e1);
    assert(vs % 4096 == vs - q * 4096) by (nonlinear_arith)
        requires
            vs / 4096 == q,
            vs >= 0,
    ;
    if ve % 4096 == 0 {
        assert(ve == (q + 1) * 4096) by (nonlinear_arith)
            requires
                ve % 4096 == 0,
                vs < ve <= (q + 1) * 4096,
                q * 4096 <= vs,
        ;
    } else {
        assert(ve % 4096 == ve - q * 4096) by (nonlinear_arith)
            requires
                ve % 4096 != 0,
                q * 4096 <= ve <= (q + 1) * 4096,
        ;
    }
    if k + 1 < buffer_pages(ptr, len) {
        assert((q + 1) * 4096 <= end - 1);
    }
}


/// The physical pieces of the user buffer `[ptr, ptr + len)` in the address
/// space named by `token`: for each page it touches, in order, the physical
/// address where the buffer's part in that page starts and its length.
pub fn translated_byte_buffer(mem: &PhysMemory, token: u64, ptr: u64, len: u64) -> (r: Vec<(PhysAddr, u64)>)
    requires
        mem.wf(),
        ptr + len < VA_LIMIT,
        forall|k: int|
            0 <= k < buffer_pages(ptr, len) ==> #[trigger] lookup(*mem, token_root(token), (ptr / 4096 + k) as u64) is Some,
    ensures
        r@.len() == buffer_pages(ptr, len),
        total_len(r@) == len,
        forall|k: int|
            0 <= k < r@.len() ==> {
                &&& (#[trigger] r@[k]).0.0 == pte_ppn(lookup(*mem, token_root(token), (ptr / 4096 + k) as u64)->0) * 4096
                    + piece_start(ptr, k) % 4096
                &&& r@[k].1 == piece_end(ptr, len, k) - piece_start(ptr, k)
            },
{
    let page_table = PageTable::from_token(token);
    let mut start = ptr;
    let end = ptr + len;
    let mut v: Vec<(PhysAddr, u64)> = Vec::new();
    while start < end
        invariant
            mem.wf(),
            page_table.root() == token_root(token),
            end == ptr + len,
            ptr + len < VA_LIMIT,
            v@.len() <= buffer_pages(ptr, len),
            start == if v@.len() < buffer_pages(ptr, len) {
                piece_start(ptr, v@.len() as int)
            } else {
                end as int
            },
            forall|k: int|
                0 <= k < buffer_pages(ptr, len) ==> #[trigger] lookup(*mem, token_root(token), (ptr / 4096 + k) as u64) is Some,
            forall|k: int|
                0 <= k < v@.len() ==> {
                    &&& (#[trigger] v@[k]).0.0 == pte_ppn(lookup(*mem, token_root(token), (ptr / 4096 + k) as u64)->0) * 4096
                        + piece_start(ptr, k) % 4096
                    &&& v@[k].1 == piece_end(ptr, len, k) - piece_start(ptr, k)
                },
        decreases end - start,
    {
        let ghost k = v@.len() as int;
        proof {
            if k >= buffer_pages(ptr, len) {
                assert(start == end);
            }
            lemma_piece(ptr, len, k);
        }
        let start_va = VirtAddr::from_u64(start);
        let mut vpn = start_va.floor();
        assert(vpn.0 == ptr / 4096 + k);
        assert(lookup(*mem, token_root(token), (ptr / 4096 + k) as u64) is Some);
        assert(vpn.0 == (ptr / 4096 + k) as u64);
        let pte = page_table.translate(mem, vpn).unwrap();
        let ppn = pte.ppn();
        vpn.step();
        let mut end_va = VirtAddr::from_vpn(vpn);
        let limit = VirtAddr::from_u64(end);
        if limit.0 < end_va.0 {
            end_va = limit;
        }
        assert(end_va.0 == piece_end(ptr, len, k));
        let pa = PhysAddr::from_ppn(ppn);
        let off = start_va.page_offset();
        let q = ppn.0;
        assert(q * 4096 + off < 0x100_0000_0000_0000) by (nonlinear_arith)
            requires
                q < 0x1000_0000_0000,
                off < 4096,
        ;
        let ghost v0 = v@;
        if end_va.page_offset() == 0 {
            v.push((PhysAddr(pa.0 + off), PAGE_SIZE - off));
        } else {
            v.push((PhysAddr(pa.0 + off), end_va.page_offset() - off));
        }
        assert forall|j: int| 0 <= j < v@.len() implies {
            &&& (#[trigger] v@[j]).0.0 == pte_ppn(lookup(*mem, token_root(token), (ptr / 4096 + j) as u64)->0) * 4096
                + piece_start(ptr, j) % 4096
            &&& v@[j].1 == piece_end(ptr, len, j) - piece_start(ptr, j)
        } by {
            if j < k {
                assert(v@[j] == v0[j]);
            }
        }
        start = end_va.0;
    }
    proof {
        if v@.len() < buffer_pages(ptr, len) {
            lemma_piece(ptr, len, v@.len() as int);
        }
        law_buffer_pieces_cover(ptr, len, v@, v@.len() as int);
    }
    v
}


/// Total length of a list of physical pieces.
pub open spec fn total_len(pieces: Seq<(PhysAddr, u64)>) -> int
    decreases pieces.len(),
{
    if pieces.len() == 0 {
        0
    } else {
        total_len(pieces.drop_last()) + pieces.last().1
    }
}

/// The pieces of a buffer, laid end to end, cover exactly its `len` bytes:
/// the first `n` pieces cover `[ptr, end of piece n - 1)`.
pub proof fn law_buffer_pieces_cover(ptr: u64, len: u64, pieces: Seq<(PhysAddr, u64)>, n: int)
    requires
        ptr + len < VA_LIMIT,
        0 <= n <= pieces.len(),
        pieces.len() == buffer_pages(ptr, len),
        forall|k: int|
            0 <= k < pieces.len() ==> (#[trigger] pieces[k]).1 == piece_end(ptr, len, k) - piece_start(
                ptr,
                k,
            ),
    ensures
        total_len(pieces.take(n)) == if n == 0 {
            0
        } else {
            piece_end(ptr, len, n - 1) - ptr
        },
        n == pieces.len() ==> total_len(pieces) == len,
    decreases n,
{
    if n > 0 {
        law_buffer_pieces_cover(ptr, len, pieces, n - 1);
        assert(pieces.take(n).drop_last() =~= pieces.take(n - 1));
        lemma_piece(ptr, len, n - 1);
        if n >= 2 {
            lemma_piece(ptr, len, n - 2);
        }
        assert(pieces.take(n).last() == pieces[n - 1]);
    }
    if n == pieces.len() {
        assert(pieces.take(n) =~= pieces);
        if n == 0 {
            assert(len == 0);
        } else {
            lemma_piece(ptr, len, n - 1);
        }
    }
}

/// The `satp` value of a table names that table's root again.
pub proof fn law_token_round_trip(root: u64)
    requires
        root < PPN_LIMIT,
    ensures
        token_root(0x8000_0000_0000_0000u64 | root) == root,
{
    assert((0x8000_0000_0000_0000u64 | root) % 0x1000_0000_0000u64 == root) by (bit_vector)
        requires
            root < 0x1000_0000_0000u64,
    ;
}

/// Unmapping a page just mapped undoes the map: `unmap` may be called (the
/// page is mapped, validly), afterwards exactly the pages that were mapped
/// before the map are mapped, and the page can be mapped again without new
/// page tables.
pub proof fn law_map_unmap_map(
    root: u64,
    m0: PhysMemory,
    m1: PhysMemory,
    m2: PhysMemory,
    vpn: u64,
    ppn: u64,
    flags: u8,
)
    requires
        ppn < PPN_LIMIT,
        !pte_valid(entry(m0, root, vpn)),
        lookup(m1, root, vpn) == Some(pte_encode(ppn, flags | PTE_V)),
        dirs(m1, root) == dirs(m0, root).insert(vpn_index(vpn, 0)),
        leaves(m1, root) == leaves(m0, root).insert(leaf_key(vpn)),
        forall|v: u64|
            #[trigger] entry(m1, root, v) == if same_slot(v, vpn) {
                pte_encode(ppn, flags | PTE_V)
            } else {
                entry(m0, root, v)
            },
        dirs(m2, root) == dirs(m1, root),
        leaves(m2, root) == leaves(m1, root),
        forall|v: u64|
            #[trigger] entry(m2, root, v) == if same_slot(v, vpn) {
                0
            } else {
                entry(m1, root, v)
            },
    ensures
        lookup(m1, root, vpn) is Some,
        pte_valid(lookup(m1, root, vpn)->0),
        forall|v: u64| pte_valid(#[trigger] entry(m2, root, v)) == pte_valid(entry(m0, root, v)),
        !pte_valid(entry(m2, root, vpn)),
        missing_tables(m2, root, vpn) == 0,
{
    lemma_pte_encode(ppn, flags | PTE_V);
    assert((flags | 1u8) & 1u8 != 0) by (bit_vector);
    lemma_zero_invalid();
    assert forall|v: u64| pte_valid(#[trigger] entry(m2, root, v)) == pte_valid(entry(m0, root, v)) by {
        if same_slot(v, vpn) {
            assert(entry(m0, root, v) == entry(m0, root, vpn));
        }
    }
    assert(same_slot(vpn, vpn));
}

/// Reading a user string stops exactly at the first address whose byte is
/// zero or cannot be read (its page does not translate, or it translates to
/// the null address); at every other address the byte is part of the
/// string.
pub proof fn law_str_end(mem: PhysMemory, root: u64, va: u64)
    ensures
        str_end(mem, root, va) <==> match user_pa(mem, root, va) {
            Some(pa) => pa == 0 || mem.byte(pa) == 0,
            None => true,
        },
{
}

/// The page number an entry names is below the limit of page numbers.
pub proof fn lemma_pte_ppn_bound(e: u64)
    ensures
        pte_ppn(e) <= 0xfff_ffff_ffff,
{
    assert(((e >> 10u64) & 0xfff_ffff_ffffu64) <= 0xfff_ffff_ffffu64) by (bit_vector);
}

/// A user address translates exactly when the walk for its page reaches a
/// leaf entry, and then to the address at the same offset in the frame that
/// the entry names.
pub proof fn law_user_pa(mem: PhysMemory, root: u64, va: u64)
    ensures
        user_pa(mem, root, va) is Some <==> lookup(mem, root, (va % 0x80_0000_0000) / 4096) is Some,
        user_pa(mem, root, va) is Some ==> {
            let pa = user_pa(mem, root, va)->0;
            let e = lookup(mem, root, (va % 0x80_0000_0000) / 4096)->0;
            &&& pa / 4096 == pte_ppn(e)
            &&& pa % 4096 == va % 4096
        },
{
    if let Some(e) = lookup(mem, root, (va % 0x80_0000_0000) / 4096) {
        let q = pte_ppn(e);
        let off = (va % 0x80_0000_0000) % 4096;
        lemma_pte_ppn_bound(e);
        vstd::arithmetic::div_mod::lemma_mod_mod(va as int, 4096, 0x800_0000);
        assert(4096 * 0x800_0000 == 0x80_0000_0000) by (nonlinear_arith);
        assert(off == va % 4096);
        assert(q * 4096 + off < 0x1_0000_0000_0000_0000 && (q * 4096 + off) / 4096 == q && (q * 4096 + off) % 4096
            == off) by (nonlinear_arith)
            requires
                q <= 0xfff_ffff_ffff,
                off < 4096,
        ;
    }
}

} // verus!
