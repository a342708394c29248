//! Address spaces: a page table together with the pages mapped into it.
use vstd::prelude::*;
use crate::mm::address::{lemma_same_slot_mod, same_slot, VirtAddr, VirtPageNum, VA_LIMIT};
use crate::mm::memory::{agree_on, changed_only, PhysMemory};
use crate::mm::address::vpn_index;
use crate::mm::page_tale::{
    dirs, leaf_key, leaves, lemma_pte_encode, pte_encode, pte_ppn, pte_valid, zeroed, PTEFlags,
    PageTable, PageTableEntry, PTE_V,
};

verus! {

/// Readable.
pub const MAP_R: u8 = 2;
/// Writable.
pub const MAP_W: u8 = 4;
/// Executable.
pub const MAP_X: u8 = 8;
/// Accessible from user mode.
pub const MAP_U: u8 = 16;

/// Number of distinct page slots of an Sv39 table: 2^27.
pub const SLOTS: u64 = 0x800_0000;

/// The access rights of a mapped area; the bits line up with those of a
/// page-table entry.
#[derive(Clone, Copy, PartialEq, Eq, Structural, Debug)]
pub struct MapPermission {
    pub bits: u8,
}

impl MapPermission {
    /// The permission with the bits of `bits` that name a permission.
    pub fn from_bits_truncate(bits: u8) -> (r: MapPermission)
        ensures
            r.bits == bits & 30u8,
    {
        MapPermission { bits: bits & 30u8 }
    }

    pub fn bits(&self) -> (r: u8)
        ensures
            r == self.bits,
    {
        self.bits
    }

    /// The permissions set in either operand.
    pub fn union(self, other: MapPermission) -> (r: MapPermission)
        ensures
            r.bits == self.bits | other.bits,
    {
        MapPermission { bits: self.bits | other.bits }
    }
}

/// Page `v` lies, by its slot, in the page range `[s, e)`.
pub open spec fn in_pages(v: u64, s: int, e: int) -> bool {
    s <= v % SLOTS < e
}

/// The page of the first address `va`.
pub open spec fn first_page(va: VirtAddr) -> int {
    va.0 as int / 4096
}

/// The first page at or above `va`.
pub open spec fn end_page(va: VirtAddr) -> int {
    (va.0 + 4095) / 4096
}

/// Number of pages in `[start_va, end_va)`.
pub open spec fn area_pages(start_va: VirtAddr, end_va: VirtAddr) -> int {
    if end_page(end_va) > first_page(start_va) {
        end_page(end_va) - first_page(start_va)
    } else {
        0
    }
}

/// Number of frames that mapping the pages `lo .. hi` one after another takes
/// when the middle tables `ds` and the leaf tables `ls` exist: one per page,
/// plus one for each middle or leaf table still missing when a page needs it.
pub open spec fn frames_needed(lo: int, hi: int, ds: Set<u64>, ls: Set<(u64, u64)>) -> int
    decreases hi - lo,
{
    if lo >= hi {
        0
    } else {
        let v = lo as u64;
        1 + (if ds.contains(vpn_index(v, 0)) {
            0int
        } else {
            1int
        }) + (if ls.contains(leaf_key(v)) {
            0int
        } else {
            1int
        }) + frames_needed(lo + 1, hi, ds.insert(vpn_index(v, 0)), ls.insert(leaf_key(v)))
    }
}

/// Mapping pages never takes a negative number of frames.
pub proof fn lemma_frames_needed_nonneg(lo: int, hi: int, ds: Set<u64>, ls: Set<(u64, u64)>)
    ensures
        frames_needed(lo, hi, ds, ls) >= 0,
    decreases hi - lo,
{
    if lo < hi {
        let v = lo as u64;
        lemma_frames_needed_nonneg(lo + 1, hi, ds.insert(vpn_index(v, 0)), ls.insert(leaf_key(v)));
    }
}

/// The middle tables `d0` together with those of the pages `lo .. v`.
pub open spec fn dirs_after(d0: Set<u64>, lo: u64, v: u64) -> Set<u64> {
    d0.union(Set::new(|x: u64| lo < v && (lo >> 18u64) <= x <= ((v - 1) as u64 >> 18u64)))
}

/// The leaf tables `l0` together with those of the pages `lo .. v`.
pub open spec fn leaves_after(l0: Set<(u64, u64)>, lo: u64, v: u64) -> Set<(u64, u64)> {
    l0.union(
        Set::new(
            |p: (u64, u64)|
                lo < v && p.0 < 512 && p.1 < 512 && (lo >> 9u64) <= p.0 * 512 + p.1 <= ((v - 1) as u64
                    >> 9u64),
        ),
    )
}

/// Below 2^27 the root index of a page is its number shifted by 18, its
/// leaf-table number (root index * 512 + middle index) is it shifted by 9, and
/// both grow by at most one from one page to the next.
proof fn lemma_page_shifts(lo: u64, v: u64)
    requires
        lo <= v < 0x800_0000,
    ensures
        vpn_index(v, 0) == v >> 18u64,
        leaf_key(v).0 * 512 + leaf_key(v).1 == v >> 9u64,
        leaf_key(v).0 < 512,
        leaf_key(v).1 < 512,
        lo >> 18u64 <= v >> 18u64,
        lo >> 9u64 <= v >> 9u64,
        lo < v ==> (v >> 18u64 == (v - 1) as u64 >> 18u64 || v >> 18u64 == ((v - 1) as u64 >> 18u64) + 1),
        lo < v ==> (v >> 9u64 == (v - 1) as u64 >> 9u64 || v >> 9u64 == ((v - 1) as u64 >> 9u64) + 1),
{
    assert((v >> 18u64) & 511u64 == v >> 18u64) by (bit_vector)
        requires v < 0x800_0000u64;
    assert(((v >> 18u64) & 511u64) * 512 + ((v >> 9u64) & 511u64) == v >> 9u64) by (bit_vector)
        requires v < 0x800_0000u64;
    assert((v >> 9u64) & 511u64 < 512) by (bit_vector);
    assert((v >> 18u64) & 511u64 < 512) by (bit_vector);
    assert(lo >> 18u64 <= v >> 18u64 && lo >> 9u64 <= v >> 9u64) by (bit_vector)
        requires lo <= v;
    if lo < v {
        let w = (v - 1) as u64;
        assert(v >> 18u64 == w >> 18u64 || v >> 18u64 == (w >> 18u64) + 1) by (bit_vector)
            requires w + 1 == v, v < 0x800_0000u64;
        assert(v >> 9u64 == w >> 9u64 || v >> 9u64 == (w >> 9u64) + 1) by (bit_vector)
            requires w + 1 == v, v < 0x800_0000u64;
    }
}

/// Two pairs of slot indexes with the same leaf-table number are equal.
proof fn lemma_leaf_no_injective(p: (u64, u64), q: (u64, u64))
    requires
        p.0 < 512,
        p.1 < 512,
        q.0 < 512,
        q.1 < 512,
        p.0 * 512 + p.1 == q.0 * 512 + q.1,
    ensures
        p == q,
{
    assert(p.0 == q.0 && p.1 == q.1) by (nonlinear_arith)
        requires
            p.0 < 512,
            p.1 < 512,
            q.0 < 512,
            q.1 < 512,
            p.0 * 512 + p.1 == q.0 * 512 + q.1,
    ;
}

/// An address space: a page table and the data frames its pages map to.
pub struct MemorySet {
    page_table: PageTable,
    data: Ghost<Set<u64>>,
}

impl MemorySet {
    /// The page table of the address space.
    pub closed spec fn page_table(&self) -> PageTable {
        self.page_table
    }

    /// The data frames the address space owns.
    pub closed spec fn data(&self) -> Set<u64> {
        self.data@
    }

    /// The page table is well formed, and every mapped page has a data frame
    /// of its own: one that exists, is not free and holds no page table.
    pub open spec fn wf(&self, mem: PhysMemory) -> bool {
        &&& self.page_table().wf(mem)
        &&& forall|p: u64| #[trigger]
            self.data().contains(p) ==> mem.has_frame(p) && !mem.free_set().contains(p)
                && !self.pt_frames().contains(p)
        &&& forall|v: u64|
            pte_valid(#[trigger] self.entry(mem, v)) ==> self.data().contains(
                pte_ppn(self.entry(mem, v)),
            )
        &&& forall|v1: u64, v2: u64|
            pte_valid(#[trigger] self.entry(mem, v1)) && pte_valid(#[trigger] self.entry(mem, v2))
                && v1 % SLOTS != v2 % SLOTS ==> pte_ppn(self.entry(mem, v1)) != pte_ppn(
                self.entry(mem, v2),
            )
    }

    /// The frames that hold the address space's page tables.
    pub open spec fn pt_frames(&self) -> Set<u64> {
        self.page_table().frames()
    }

    /// All frames the address space owns: page tables and data.
    pub open spec fn frames(&self) -> Set<u64> {
        self.pt_frames().union(self.data())
    }

    /// Number of frames that mapping the pages `lo .. hi` takes in `mem`.
    pub open spec fn frames_needed(&self, mem: PhysMemory, lo: int, hi: int) -> int {
        frames_needed(
            lo,
            hi,
            dirs(mem, self.page_table().root()),
            leaves(mem, self.page_table().root()),
        )
    }

    /// The entry that governs page `vpn`.
    pub open spec fn entry(&self, mem: PhysMemory, vpn: u64) -> u64 {
        self.page_table().entry(mem, vpn)
    }

    /// An address space whose frames are neither changed nor free is
    /// unchanged by a change of memory.
    pub proof fn lemma_unaffected(&self, m1: PhysMemory, m2: PhysMemory, owned: Set<u64>)
        requires
            self.wf(m1),
            changed_only(m1, m2, owned),
            self.frames().disjoint(owned),
        ensures
            self.wf(m2),
            forall|v: u64| #[trigger] self.entry(m2, v) == self.entry(m1, v),
            forall|v: u64|
                #[trigger] crate::mm::page_tale::lookup(m2, self.page_table().root(), v)
                    == crate::mm::page_tale::lookup(m1, self.page_table().root(), v),
    {
        let pt = self.page_table;
        pt.lemma_frames(m1);
        assert(agree_on(m1, m2, pt.frames())) by {
            assert forall|p: u64, i: u64| pt.frames().contains(p) implies #[trigger] m2.word(p, i)
                == m1.word(p, i) by {
                assert(!owned.contains(p));
            }
        }
        assert forall|p: u64| pt.frames().contains(p) implies !#[trigger] m2.free_set().contains(p) by {
            assert(!owned.contains(p));
        }
        pt.lemma_frame(m1, m2);
        assert forall|p: u64| #[trigger] self.data().contains(p) implies m2.has_frame(p)
            && !m2.free_set().contains(p) && !self.pt_frames().contains(p) by {
            assert(!owned.contains(p));
        }
        assert forall|v: u64| pte_valid(#[trigger] self.entry(m2, v)) implies self.data().contains(
            pte_ppn(self.entry(m2, v)),
        ) by {
            assert(self.entry(m2, v) == self.entry(m1, v));
        }
        assert forall|v1: u64, v2: u64|
            pte_valid(#[trigger] self.entry(m2, v1)) && pte_valid(#[trigger] self.entry(m2, v2))
                && v1 % SLOTS != v2 % SLOTS implies pte_ppn(self.entry(m2, v1)) != pte_ppn(
                self.entry(m2, v2),
            ) by {
            assert(self.entry(m2, v1) == self.entry(m1, v1));
            assert(self.entry(m2, v2) == self.entry(m1, v2));
        }
    }

    /// The frames of a well-formed address space exist and are not free.
    pub proof fn lemma_frames(&self, mem: PhysMemory)
        requires
            mem.wf(),
            self.wf(mem),
        ensures
            self.frames().contains(self.page_table().root()),
            self.page_table().root() < crate::mm::address::PPN_LIMIT,
            forall|p: u64| #[trigger]
                self.frames().contains(p) ==> mem.has_frame(p) && !mem.free_set().contains(p),
    {
        self.page_table.lemma_frames(mem);
        mem.lemma_wf_frames();
    }

    /// An empty address space with a fresh root table.
    pub fn new_bare(mem: &mut PhysMemory) -> (r: MemorySet)
        requires
            old(mem).wf(),
            old(mem).free_count() > 0,
        ensures
            final(mem).wf(),
            r.wf(*final(mem)),
            r.frames().len() == 1,
            r.frames().subset_of(old(mem).free_set()),
            final(mem).free_set() == old(mem).free_set().difference(r.frames()),
            final(mem).free_count() + 1 == old(mem).free_count(),
            changed_only(*old(mem), *final(mem), Set::<u64>::empty()),
            forall|v: u64| #[trigger] r.entry(*final(mem), v) == 0,
    {
        let page_table = PageTable::new(mem);
        let r = MemorySet { page_table, data: Ghost(Set::empty()) };
        proof {
            crate::mm::page_tale::lemma_zero_invalid();
            assert(r.frames() =~= set![page_table.root()]);
            assert(set![page_table.root()].len() == 1);
            assert(mem.free_set() =~= old(mem).free_set().difference(r.frames()));
        }
        r
    }

    /// Number of frames that mapping the pages `lo .. hi` takes.
    pub fn count_frames_needed(&self, mem: &PhysMemory, lo: VirtPageNum, hi: VirtPageNum) -> (r: u64)
        requires
            mem.wf(),
            hi.0 <= SLOTS,
        ensures
            r == self.frames_needed(*mem, lo.0 as int, hi.0 as int),
    {
        let ghost d0 = dirs(*mem, self.page_table().root());
        let ghost l0 = leaves(*mem, self.page_table().root());
        let mut count: u64 = 0;
        let mut v = lo.0;
        proof {
            assert(dirs_after(d0, lo.0, v) =~= d0);
            assert(leaves_after(l0, lo.0, v) =~= l0);
        }
        while v < hi.0
            invariant
                mem.wf(),
                hi.0 <= SLOTS,
                lo.0 <= v,
                v == lo.0 || v <= hi.0,
                d0 == dirs(*mem, self.page_table().root()),
                l0 == leaves(*mem, self.page_table().root()),
                count <= 3 * (v - lo.0),
                count + frames_needed(v as int, hi.0 as int, dirs_after(d0, lo.0, v), leaves_after(l0, lo.0, v))
                    == frames_needed(lo.0 as int, hi.0 as int, d0, l0),
            decreases hi.0 - v,
        {
            let (d_ok, l_ok) = self.page_table.tables_present(mem, VirtPageNum(v));
            let same_dir = v > lo.0 && (v >> 18) == ((v - 1) >> 18);
            let same_leaf = v > lo.0 && (v >> 9) == ((v - 1) >> 9);
            let ghost ds = dirs_after(d0, lo.0, v);
            let ghost ls = leaves_after(l0, lo.0, v);
            proof {
                lemma_page_shifts(lo.0, v);
                let i0 = vpn_index(v, 0);
                let k = leaf_key(v);
                assert(ds.contains(i0) == (d_ok || same_dir));
                if lo.0 < v {
                    lemma_page_shifts(lo.0, (v - 1) as u64);
                }
                assert(ls.contains(k) == (l_ok || same_leaf)) by {
                    if ls.contains(k) && !l0.contains(k) {
                        assert(lo.0 < v);
                    }
                }
                assert(ds.insert(i0) =~= dirs_after(d0, lo.0, (v + 1) as u64));
                assert(ls.insert(k) =~= leaves_after(l0, lo.0, (v + 1) as u64)) by {
                    assert forall|p: (u64, u64)| #[trigger] leaves_after(l0, lo.0, (v + 1) as u64).contains(p)
                        implies ls.insert(k).contains(p) by {
                        if !l0.contains(p) && p != k {
                            if p.0 * 512 + p.1 == v >> 9u64 {
                                lemma_leaf_no_injective(p, k);
                            }
                        }
                    }
                }
                assert((v as int) as u64 == v);
            }
            count = count + 1 + (if d_ok || same_dir { 0 } else { 1 }) + (if l_ok || same_leaf { 0 } else { 1 });
            v = v + 1;
        }
        count
    }

    /// The `satp` value that selects this address space.
    pub fn token(&self) -> (r: u64)
        ensures
            r == 0x8000_0000_0000_0000u64 | self.page_table().root(),
    {
        self.page_table.token()
    }

    /// The leaf entry of `vpn`, if the walk reaches one.
    pub fn translate(&self, mem: &PhysMemory, vpn: VirtPageNum) -> (r: Option<PageTableEntry>)
        requires
            mem.wf(),
        ensures
            r == match crate::mm::page_tale::lookup(*mem, self.page_table().root(), vpn.0) {
                Some(e) => Some(PageTableEntry { bits: e }),
                None => None,
            },
            r is Some ==> r->0.bits == self.entry(*mem, vpn.0),
            r is None ==> self.entry(*mem, vpn.0) == 0,
    {
        self.page_table.translate(mem, vpn)
    }

    /// Map every page of `[start_va, end_va)` to a fresh frame of its own
    /// with `perm` (and the valid flag). None of those pages may be mapped.
    #[verifier::spinoff_prover]
    #[verifier::rlimit(40)]
    pub fn insert_framed_area(
        &mut self,
        mem: &mut PhysMemory,
        start_va: VirtAddr,
        end_va: VirtAddr,
        perm: MapPermission,
    )
        requires
            old(mem).wf(),
            old(self).wf(*old(mem)),
            end_va.0 <= VA_LIMIT,
            old(mem).free_count() >= old(self).frames_needed(*old(mem), first_page(start_va), end_page(end_va)),
            forall|v: u64|
                first_page(start_va) <= v < end_page(end_va) ==> !pte_valid(
                    #[trigger] old(self).entry(*old(mem), v),
                ),
        ensures
            final(mem).wf(),
            final(self).wf(*final(mem)),
            final(self).page_table().root() == old(self).page_table().root(),
            old(self).frames().subset_of(final(self).frames()),
            final(self).frames().subset_of(old(self).frames().union(old(mem).free_set())),
            changed_only(*old(mem), *final(mem), final(self).frames()),
            forall|p: u64, i: u64|
                !old(self).pt_frames().contains(p) && !old(mem).free_set().contains(p)
                    ==> #[trigger] final(mem).word(p, i) == old(mem).word(p, i),
            final(mem).free_count() + old(self).frames_needed(*old(mem), first_page(start_va), end_page(end_va))
                == old(mem).free_count(),
            forall|v: u64|
                !in_pages(v, first_page(start_va), end_page(end_va))
                    ==> #[trigger] final(self).entry(*final(mem), v) == old(self).entry(*old(mem), v),
            forall|v: u64|
                in_pages(v, first_page(start_va), end_page(end_va)) ==> {
                    let e = #[trigger] final(self).entry(*final(mem), v);
                    &&& pte_valid(e)
                    &&& e & 0xffu64 == (perm.bits | PTE_V) as u64
                    &&& old(mem).free_set().contains(pte_ppn(e))
                    &&& !final(mem).free_set().contains(pte_ppn(e))
                    &&& !final(self).pt_frames().contains(pte_ppn(e))
                    &&& zeroed(*final(mem), pte_ppn(e))
                },
            old(self).data().subset_of(final(self).data()),
            forall|v: u64|
                in_pages(v, first_page(start_va), end_page(end_va)) ==> #[trigger] dirs(
                    *final(mem),
                    final(self).page_table().root(),
                ).contains(vpn_index(v, 0)) && leaves(*final(mem), final(self).page_table().root()).contains(
                    leaf_key(v),
                ),
            forall|v1: u64, v2: u64|
                in_pages(v1, first_page(start_va), end_page(end_va)) && in_pages(
                    v2,
                    first_page(start_va),
                    end_page(end_va),
                ) && v1 % SLOTS != v2 % SLOTS ==> pte_ppn(
                    #[trigger] final(self).entry(*final(mem), v1),
                ) != pte_ppn(#[trigger] final(self).entry(*final(mem), v2)),
    {
        let ghost old_mem = *mem;
        let ghost old_self = *self;
        let s = start_va.floor();
        let e = end_va.ceil();
        let ghost sn = s.0 as int;
        let mut vpn = s;
        assert(e.0 <= SLOTS);
        while vpn.0 < e.0
            invariant
                mem.wf(),
                self.wf(*mem),
                self.page_table().root() == old_self.page_table().root(),
                sn == s.0,
                sn <= vpn.0 || e.0 <= sn,
                vpn.0 == sn || vpn.0 <= e.0,
                e.0 <= SLOTS,
                s.0 == first_page(start_va),
                e.0 == end_page(end_va),
                mem.free_count() + old_self.frames_needed(old_mem, sn, e.0 as int) == old_mem.free_count()
                    + self.frames_needed(*mem, vpn.0 as int, e.0 as int),
                old_mem.free_count() >= old_self.frames_needed(old_mem, sn, e.0 as int),
                sn <= vpn.0,
                old_self.frames().subset_of(self.frames()),
                self.frames().subset_of(old_self.frames().union(old_mem.free_set())),
                mem.free_set().subset_of(old_mem.free_set()),
                self.pt_frames().subset_of(old_self.pt_frames().union(old_mem.free_set())),
                forall|p: u64, i: u64|
                    !old_self.pt_frames().contains(p) && !old_mem.free_set().contains(p)
                        ==> #[trigger] mem.word(p, i) == old_mem.word(p, i),
                changed_only(old_mem, *mem, self.frames()),
                forall|v: u64|
                    first_page(start_va) <= v < end_page(end_va) ==> !pte_valid(
                        #[trigger] old_self.entry(old_mem, v),
                    ),
                forall|v: u64|
                    !in_pages(v, sn, vpn.0 as int) ==> #[trigger] self.entry(*mem, v)
                        == old_self.entry(old_mem, v),
                forall|v: u64|
                    in_pages(v, sn, vpn.0 as int) ==> {
                        let e = #[trigger] self.entry(*mem, v);
                        &&& pte_valid(e)
                        &&& e & 0xffu64 == (perm.bits | PTE_V) as u64
                        &&& old_mem.free_set().contains(pte_ppn(e))
                        &&& !mem.free_set().contains(pte_ppn(e))
                        &&& !self.pt_frames().contains(pte_ppn(e))
                        &&& zeroed(*mem, pte_ppn(e))
                    },
                old_self.data().subset_of(self.data()),
                forall|v: u64|
                    in_pages(v, sn, vpn.0 as int) ==> #[trigger] dirs(*mem, self.page_table().root()).contains(
                        vpn_index(v, 0),
                    ) && leaves(*mem, self.page_table().root()).contains(leaf_key(v)),
                forall|v1: u64, v2: u64|
                    in_pages(v1, sn, vpn.0 as int) && in_pages(v2, sn, vpn.0 as int) && v1 % SLOTS
                        != v2 % SLOTS ==> pte_ppn(#[trigger] self.entry(*mem, v1)) != pte_ppn(
                        #[trigger] self.entry(*mem, v2),
                    ),
            decreases e.0 - vpn.0,
        {
            let ghost m0 = *mem;
            let ghost pt0 = self.page_table;
            let ghost ms0 = *self;
            proof {
                m0.lemma_wf();
                pt0.lemma_frames(m0);
                let ds = dirs(m0, pt0.root());
                let ls = leaves(m0, pt0.root());
                lemma_frames_needed_nonneg(vpn.0 + 1, e.0 as int, ds.insert(vpn_index(vpn.0, 0)), ls.insert(leaf_key(vpn.0)));
                assert((vpn.0 as int) as u64 == vpn.0);
                assert(self.frames_needed(m0, vpn.0 as int, e.0 as int) == 1 + crate::mm::page_tale::missing_tables(
                    m0, pt0.root(), vpn.0) + frames_needed(vpn.0 + 1, e.0 as int, ds.insert(vpn_index(vpn.0, 0)), ls.insert(leaf_key(vpn.0))));
                assert(!in_pages(vpn.0, sn, vpn.0 as int));
                assert(self.entry(m0, vpn.0) == old_self.entry(old_mem, vpn.0));
            }
            let frame = mem.frame_alloc().unwrap();
            let ghost m1 = *mem;
            proof {
                assert(!pt0.frames().contains(frame.0));
                assert(agree_on(m0, m1, pt0.frames()));
                pt0.lemma_frame(m0, m1);
                assert(vpn.0 % SLOTS == vpn.0);
                assert(!in_pages(vpn.0, sn, vpn.0 as int));
                assert(pt0.entry(m1, vpn.0) == old_self.entry(old_mem, vpn.0));
                assert(frame.0 < crate::mm::address::PPN_LIMIT);
            }
            let flags = PTEFlags::from_bits(perm.bits).unwrap();
            self.page_table.map(mem, vpn, frame, flags);
            proof {
                let pt2 = self.page_table;
                let m2 = *mem;
                let x = pte_encode(frame.0, perm.bits | PTE_V);
                lemma_pte_encode(frame.0, perm.bits | PTE_V);
                let b = perm.bits;
                assert((b | 1u8) & 1u8 != 0) by (bit_vector);
                assert(pte_valid(x));
                assert(pte_ppn(x) == frame.0);
                assert(!m2.free_set().contains(frame.0));
                assert(!pt2.frames().contains(frame.0));
                assert forall|v: u64| #[trigger] pt2.entry(m2, v) == if v % SLOTS == vpn.0 {
                    x
                } else {
                    pt0.entry(m0, v)
                } by {
                    lemma_same_slot_mod(v, vpn.0);
                }
                assert forall|v: u64|
                    !in_pages(v, sn, vpn.0 + 1) implies #[trigger] pt2.entry(m2, v)
                        == old_self.entry(old_mem, v) by {
                    lemma_same_slot_mod(v, vpn.0);
                    assert(!in_pages(v, sn, vpn.0 as int));
                    assert(ms0.entry(m0, v) == old_self.entry(old_mem, v));
                }
                assert forall|v: u64| in_pages(v, sn, vpn.0 + 1) implies {
                    let e = #[trigger] pt2.entry(m2, v);
                    &&& pte_valid(e)
                    &&& e & 0xffu64 == (perm.bits | PTE_V) as u64
                    &&& old_mem.free_set().contains(pte_ppn(e))
                    &&& !m2.free_set().contains(pte_ppn(e))
                    &&& !pt2.frames().contains(pte_ppn(e))
                    &&& zeroed(m2, pte_ppn(e))
                } by {
                    lemma_same_slot_mod(v, vpn.0);
                    if v % SLOTS != vpn.0 {
                        assert(in_pages(v, sn, vpn.0 as int));
                        let e0 = ms0.entry(m0, v);
                        let q = pte_ppn(e0);
                        assert(!m0.free_set().contains(q));
                        assert(q != frame.0);
                        assert(!pt2.frames().contains(q));
                        assert forall|j: u64| #[trigger] m2.word(q, j) == 0 by {
                            assert(m1.word(q, j) == m0.word(q, j));
                            assert(m0.word(q, j) == 0);
                        }
                    } else {
                        assert forall|j: u64| #[trigger] m2.word(frame.0, j) == 0 by {
                            assert(m1.word(frame.0, j) == 0);
                        }
                    }
                }
                assert forall|v1: u64, v2: u64|
                    in_pages(v1, sn, vpn.0 + 1) && in_pages(v2, sn, vpn.0 + 1) && v1 % SLOTS
                        != v2 % SLOTS implies pte_ppn(#[trigger] pt2.entry(m2, v1)) != pte_ppn(
                        #[trigger] pt2.entry(m2, v2),
                    ) by {
                    lemma_same_slot_mod(v1, vpn.0);
                    lemma_same_slot_mod(v2, vpn.0);
                    if v1 % SLOTS == vpn.0 {
                        assert(in_pages(v2, sn, vpn.0 as int));
                        assert(!m0.free_set().contains(pte_ppn(ms0.entry(m0, v2))));
                    } else if v2 % SLOTS == vpn.0 {
                        assert(in_pages(v1, sn, vpn.0 as int));
                        assert(!m0.free_set().contains(pte_ppn(ms0.entry(m0, v1))));
                    } else {
                        assert(ms0.entry(m0, v1) == pt2.entry(m2, v1));
                        assert(ms0.entry(m0, v2) == pt2.entry(m2, v2));
                    }
                }
            }
            let ghost d0 = self.data@;
            self.data = Ghost(self.data@.insert(frame.0));
            proof {
                let ms2 = *self;
                let m2 = *mem;
                let pt2 = self.page_table;
                assert(ms2.page_table() == pt2);
                assert forall|p: u64| #[trigger] ms2.data().contains(p) implies m2.has_frame(p)
                    && !m2.free_set().contains(p) && !ms2.pt_frames().contains(p) by {
                    if p != frame.0 {
                        assert(ms0.data().contains(p));
                        assert(!m0.free_set().contains(p));
                        assert(!pt0.frames().contains(p));
                        assert(m0.has_frame(p));
                    }
                }
                assert forall|v: u64| pte_valid(#[trigger] ms2.entry(m2, v)) implies ms2.data().contains(
                    pte_ppn(ms2.entry(m2, v)),
                ) by {
                    lemma_same_slot_mod(v, vpn.0);
                    if v % SLOTS != vpn.0 {
                        assert(ms2.entry(m2, v) == ms0.entry(m0, v));
                    }
                }
                assert forall|v1: u64, v2: u64|
                    pte_valid(#[trigger] ms2.entry(m2, v1)) && pte_valid(#[trigger] ms2.entry(m2, v2))
                        && v1 % SLOTS != v2 % SLOTS implies pte_ppn(ms2.entry(m2, v1)) != pte_ppn(
                        ms2.entry(m2, v2),
                    ) by {
                    lemma_same_slot_mod(v1, vpn.0);
                    lemma_same_slot_mod(v2, vpn.0);
                    if v1 % SLOTS == vpn.0 {
                        assert(ms2.entry(m2, v2) == ms0.entry(m0, v2));
                        assert(ms0.data().contains(pte_ppn(ms0.entry(m0, v2))));
                    } else if v2 % SLOTS == vpn.0 {
                        assert(ms2.entry(m2, v1) == ms0.entry(m0, v1));
                        assert(ms0.data().contains(pte_ppn(ms0.entry(m0, v1))));
                    } else {
                        assert(ms2.entry(m2, v1) == ms0.entry(m0, v1));
                        assert(ms2.entry(m2, v2) == ms0.entry(m0, v2));
                    }
                }
                assert forall|v: u64|
                    in_pages(v, sn, vpn.0 + 1) implies #[trigger] dirs(m2, pt2.root()).contains(
                        vpn_index(v, 0),
                    ) && leaves(m2, pt2.root()).contains(leaf_key(v)) by {
                    lemma_same_slot_mod(v, vpn.0);
                    if v % SLOTS != vpn.0 {
                        assert(in_pages(v, sn, vpn.0 as int));
                        assert(dirs(m0, pt0.root()).contains(vpn_index(v, 0)));
                        assert(leaves(m0, pt0.root()).contains(leaf_key(v)));
                    } else {
                        assert(same_slot(v, vpn.0));
                        assert(leaf_key(v) == leaf_key(vpn.0));
                    }
                }
                assert(self.page_table().root() == pt2.root());
            }
            proof {
                let m2 = *mem;
                let pt2 = self.page_table;
                assert(m2.free_set().subset_of(old_mem.free_set()));
                assert forall|p: u64| #[trigger] self.pt_frames().contains(p) implies old_self.pt_frames().union(
                    old_mem.free_set(),
                ).contains(p) by {
                    if !pt0.frames().contains(p) {
                        assert(m1.free_set().contains(p));
                    }
                }
                assert forall|p: u64, i: u64|
                    !old_self.pt_frames().contains(p) && !old_mem.free_set().contains(p) implies #[trigger] m2.word(p, i)
                        == old_mem.word(p, i) by {
                    assert(!pt0.frames().contains(p));
                    assert(p != frame.0);
                    assert(m1.word(p, i) == m0.word(p, i));
                    assert(!pt2.frames().contains(p)) by {
                        if pt2.frames().contains(p) && !pt0.frames().contains(p) {
                            assert(m1.free_set().contains(p));
                        }
                    }
                    assert(m2.word(p, i) == m1.word(p, i));
                }
            }
            vpn.step();
        }
    }

    /// Clear the entry of the mapped page `vpn` and give its data frame back
    /// to the free frames.
    pub fn unmap(&mut self, mem: &mut PhysMemory, vpn: VirtPageNum)
        requires
            old(mem).wf(),
            old(self).wf(*old(mem)),
            crate::mm::page_tale::lookup(*old(mem), old(self).page_table().root(), vpn.0) is Some,
            pte_valid(old(self).entry(*old(mem), vpn.0)),
        ensures
            final(self).page_table() == old(self).page_table(),
            final(self).data() == old(self).data().remove(pte_ppn(old(self).entry(*old(mem), vpn.0))),
            final(mem).wf(),
            final(self).wf(*final(mem)),
            final(mem).free_set() == old(mem).free_set().insert(pte_ppn(old(self).entry(*old(mem), vpn.0))),
            final(mem).free_count() == old(mem).free_count() + 1,
            changed_only(*old(mem), *final(mem), old(self).frames()),
            forall|p: u64, i: u64|
                !old(self).pt_frames().contains(p) ==> #[trigger] final(mem).word(p, i) == old(mem).word(p, i),
            dirs(*final(mem), final(self).page_table().root()) == dirs(*old(mem), old(self).page_table().root()),
            leaves(*final(mem), final(self).page_table().root()) == leaves(*old(mem), old(self).page_table().root()),
            forall|v: u64|
                #[trigger] crate::mm::page_tale::lookup(*final(mem), final(self).page_table().root(), v)
                    == if same_slot(v, vpn.0) {
                    Some(0u64)
                } else {
                    crate::mm::page_tale::lookup(*old(mem), old(self).page_table().root(), v)
                },
            forall|v: u64|
                #[trigger] final(self).entry(*final(mem), v) == if same_slot(v, vpn.0) {
                    0
                } else {
                    old(self).entry(*old(mem), v)
                },
    {
        let ghost m0 = *mem;
        let ghost ms0 = *self;
        let pte = self.page_table.translate(mem, vpn).unwrap();
        let ppn = pte.ppn();
        self.page_table.unmap(mem, vpn);
        let ghost m1 = *mem;
        proof {
            assert(ms0.data().contains(ppn.0));
            self.page_table.lemma_frames(m1);
        }
        mem.frame_dealloc(ppn);
        self.data = Ghost(self.data@.remove(ppn.0));
        proof {
            let m2 = *mem;
            let pt = self.page_table;
            assert forall|p: u64, i: u64| !ms0.pt_frames().contains(p) implies #[trigger] m2.word(p, i)
                == m0.word(p, i) by {
                assert(m1.word(p, i) == m0.word(p, i));
            }
            assert(agree_on(m1, m2, pt.frames()));
            pt.lemma_frame(m1, m2);
            lemma_same_slot_mod(vpn.0, vpn.0);
            assert forall|p: u64| #[trigger] self.data().contains(p) implies m2.has_frame(p)
                && !m2.free_set().contains(p) && !self.pt_frames().contains(p) by {
                assert(ms0.data().contains(p));
            }
            assert forall|v: u64| pte_valid(#[trigger] self.entry(m2, v)) implies self.data().contains(
                pte_ppn(self.entry(m2, v)),
            ) by {
                lemma_same_slot_mod(v, vpn.0);
                crate::mm::page_tale::lemma_zero_invalid();
                assert(self.entry(m2, v) == self.entry(m1, v));
                assert(!same_slot(v, vpn.0));
                assert(self.entry(m1, v) == ms0.entry(m0, v));
                assert(pte_ppn(ms0.entry(m0, v)) != pte_ppn(ms0.entry(m0, vpn.0)));
            }
            assert forall|v1: u64, v2: u64|
                pte_valid(#[trigger] self.entry(m2, v1)) && pte_valid(#[trigger] self.entry(m2, v2))
                    && v1 % SLOTS != v2 % SLOTS implies pte_ppn(self.entry(m2, v1)) != pte_ppn(
                    self.entry(m2, v2),
                ) by {
                lemma_same_slot_mod(v1, vpn.0);
                lemma_same_slot_mod(v2, vpn.0);
                crate::mm::page_tale::lemma_zero_invalid();
                assert(self.entry(m2, v1) == self.entry(m1, v1));
                assert(self.entry(m2, v2) == self.entry(m1, v2));
                assert(self.entry(m1, v1) == ms0.entry(m0, v1));
                assert(self.entry(m1, v2) == ms0.entry(m0, v2));
            }
            assert forall|v: u64|
                #[trigger] crate::mm::page_tale::lookup(m2, pt.root(), v) == if same_slot(v, vpn.0) {
                    Some(0u64)
                } else {
                    crate::mm::page_tale::lookup(m0, pt.root(), v)
                } by {
                assert(crate::mm::page_tale::lookup(m2, pt.root(), v) == crate::mm::page_tale::lookup(m1, pt.root(), v));
            }
            assert forall|v: u64|
                #[trigger] self.entry(m2, v) == if same_slot(v, vpn.0) {
                    0
                } else {
                    ms0.entry(m0, v)
                } by {
                assert(self.entry(m2, v) == self.entry(m1, v));
            }
        }
    }
}


/// The pages from `v` up to the next multiple of 2^18 share their root
/// slot, and those up to the next multiple of 2^9 also their middle slot;
/// both next multiples lie above `v` and within the slots.
proof fn lemma_blocks(v: u64, x: u64)
    requires
        v < 0x800_0000,
    ensures
        (v >> 18u64) < 512,
        (v >> 9u64) < 0x4_0000,
        v < (((v >> 18u64) + 1) as u64) << 18u64 <= 0x800_0000,
        v < (((v >> 9u64) + 1) as u64) << 9u64 <= 0x800_0000,
        v <= x % 0x800_0000 < (((v >> 18u64) + 1) as u64) << 18u64 ==> vpn_index(x, 0) == vpn_index(v, 0),
        v <= x % 0x800_0000 < (((v >> 9u64) + 1) as u64) << 9u64 ==> leaf_key(x) == leaf_key(v),
{
    assert({
        &&& (v >> 18u64) < 512
        &&& (v >> 9u64) < 0x4_0000
        &&& v < (((v >> 18u64) + 1) as u64) << 18u64
        &&& (((v >> 18u64) + 1) as u64) << 18u64 <= 0x800_0000
        &&& v < (((v >> 9u64) + 1) as u64) << 9u64
        &&& (((v >> 9u64) + 1) as u64) << 9u64 <= 0x800_0000
        &&& (v <= x % 0x800_0000 && x % 0x800_0000 < (((v >> 18u64) + 1) as u64) << 18u64 ==> (x >> 18u64)
            & 511u64 == (v >> 18u64) & 511u64)
        &&& (v <= x % 0x800_0000 && x % 0x800_0000 < (((v >> 9u64) + 1) as u64) << 9u64 ==> (x >> 18u64)
            & 511u64 == (v >> 18u64) & 511u64 && (x >> 9u64) & 511u64 == (v >> 9u64) & 511u64)
    }) by (bit_vector)
        requires
            v < 0x800_0000,
    ;
}

impl MemorySet {
    /// Release the data frames of all mapped pages: every entry becomes
    /// empty and the frame of each mapped page goes back to the free
    /// frames; the page tables stay.
    #[verifier::rlimit(40)]
    pub fn recycle_data_pages(&mut self, mem: &mut PhysMemory)
        requires
            old(mem).wf(),
            old(self).wf(*old(mem)),
        ensures
            final(mem).wf(),
            final(self).wf(*final(mem)),
            final(self).page_table() == old(self).page_table(),
            final(self).data().subset_of(old(self).data()),
            final(mem).free_set() == old(mem).free_set().union(old(self).data().difference(final(self).data())),
            changed_only(*old(mem), *final(mem), old(self).frames()),
            dirs(*final(mem), final(self).page_table().root()) == dirs(*old(mem), old(self).page_table().root()),
            leaves(*final(mem), final(self).page_table().root()) == leaves(
                *old(mem),
                old(self).page_table().root(),
            ),
            forall|v: u64|
                pte_valid(#[trigger] old(self).entry(*old(mem), v)) ==> !final(self).data().contains(
                    pte_ppn(old(self).entry(*old(mem), v)),
                ),
            forall|v: u64| !pte_valid(#[trigger] final(self).entry(*final(mem), v)),
    {
        let ghost m0 = *mem;
        let ghost s0 = *self;
        let ghost root = s0.page_table().root();
        proof {
            crate::mm::page_tale::lemma_zero_invalid();
            assert(m0.free_set().union(s0.data().difference(s0.data())) =~= m0.free_set());
        }
        let mut v: u64 = 0;
        while v < SLOTS
            invariant
                mem.wf(),
                self.wf(*mem),
                v <= SLOTS,
                !pte_valid(0),
                root == s0.page_table().root(),
                self.page_table() == s0.page_table(),
                self.data().subset_of(s0.data()),
                mem.free_set() == m0.free_set().union(s0.data().difference(self.data())),
                changed_only(m0, *mem, s0.frames()),
                dirs(*mem, root) == dirs(m0, root),
                leaves(*mem, root) == leaves(m0, root),
                forall|w: u64| w % SLOTS < v ==> !pte_valid(#[trigger] self.entry(*mem, w)),
                forall|w: u64| v <= w % SLOTS ==> #[trigger] self.entry(*mem, w) == s0.entry(m0, w),
                forall|w: u64|
                    w % SLOTS < v && pte_valid(#[trigger] s0.entry(m0, w)) ==> !self.data().contains(
                        pte_ppn(s0.entry(m0, w)),
                    ),
            decreases SLOTS - v,
        {
            let (d_ok, l_ok) = self.page_table.tables_present(mem, VirtPageNum(v));
            if !d_ok {
                proof {
                    lemma_blocks(v, v);
                }
                let next = ((v >> 18) + 1) << 18;
                proof {
                    assert forall|w: u64| v <= w % SLOTS < next implies !pte_valid(#[trigger] self.entry(*mem, w)) by {
                        lemma_blocks(v, w);
                        crate::mm::address::lemma_vpn_index_bound(w);
                    }
                    assert forall|w: u64| w % SLOTS < next && pte_valid(#[trigger] s0.entry(m0, w)) implies !self.data().contains(
                        pte_ppn(s0.entry(m0, w)),
                    ) by {
                        if v <= w % SLOTS {
                            assert(self.entry(*mem, w) == s0.entry(m0, w));
                            lemma_blocks(v, w);
                            crate::mm::address::lemma_vpn_index_bound(w);
                        }
                    }
                }
                v = next;
            } else if !l_ok {
                proof {
                    lemma_blocks(v, v);
                }
                let next = ((v >> 9) + 1) << 9;
                proof {
                    assert forall|w: u64| v <= w % SLOTS < next implies !pte_valid(#[trigger] self.entry(*mem, w)) by {
                        lemma_blocks(v, w);
                        crate::mm::address::lemma_vpn_index_bound(w);
                    }
                    assert forall|w: u64| w % SLOTS < next && pte_valid(#[trigger] s0.entry(m0, w)) implies !self.data().contains(
                        pte_ppn(s0.entry(m0, w)),
                    ) by {
                        if v <= w % SLOTS {
                            assert(self.entry(*mem, w) == s0.entry(m0, w));
                            lemma_blocks(v, w);
                            crate::mm::address::lemma_vpn_index_bound(w);
                        }
                    }
                }
                v = next;
            } else {
                let vpn = VirtPageNum(v);
                let valid = match self.translate(mem, vpn) {
                    Some(e) => e.is_valid(),
                    None => false,
                };
                proof {
                    assert(v % SLOTS == v);
                }
                if valid {
                    let ghost m1 = *mem;
                    let ghost s1 = *self;
                    let ghost q = pte_ppn(s1.entry(m1, v));
                    self.unmap(mem, vpn);
                    proof {
                        let m2 = *mem;
                        assert(s1.data().contains(q));
                        assert(m2.free_set() =~= m0.free_set().union(s0.data().difference(self.data())));
                        assert forall|p: u64, i: u64|
                            !s0.frames().contains(p) && !m0.free_set().contains(p) implies #[trigger] m2.word(p, i)
                            == m0.word(p, i) by {
                            assert(!s1.frames().contains(p));
                            assert(!m1.free_set().contains(p));
                        }
                        assert(changed_only(m0, m2, s0.frames()));
                        assert forall|w: u64| w % SLOTS < v + 1 implies !pte_valid(#[trigger] self.entry(m2, w)) by {
                            lemma_same_slot_mod(w, v);
                        }
                        assert forall|w: u64| v + 1 <= w % SLOTS implies #[trigger] self.entry(m2, w) == s0.entry(m0, w) by {
                            lemma_same_slot_mod(w, v);
                        }
                        assert forall|w: u64| w % SLOTS < v + 1 && pte_valid(#[trigger] s0.entry(m0, w)) implies !self.data().contains(
                            pte_ppn(s0.entry(m0, w)),
                        ) by {
                            lemma_same_slot_mod(w, v);
                            if w % SLOTS == v {
                                assert(s0.entry(m0, w) == s0.entry(m0, v));
                                assert(s1.entry(m1, v) == s0.entry(m0, v));
                            }
                        }
                    }
                } else {
                    proof {
                        assert forall|w: u64| w % SLOTS < v + 1 implies !pte_valid(#[trigger] self.entry(*mem, w)) by {
                            lemma_same_slot_mod(w, v);
                            if w % SLOTS == v {
                                assert(self.entry(*mem, w) == self.entry(*mem, v));
                            }
                        }
                        assert forall|w: u64| w % SLOTS < v + 1 && pte_valid(#[trigger] s0.entry(m0, w)) implies !self.data().contains(
                            pte_ppn(s0.entry(m0, w)),
                        ) by {
                            lemma_same_slot_mod(w, v);
                            if w % SLOTS == v {
                                assert(self.entry(*mem, w) == s0.entry(m0, w));
                                assert(self.entry(*mem, w) == self.entry(*mem, v));
                            }
                        }
                    }
                }
                v = v + 1;
            }
        }
        proof {
            assert forall|w: u64| pte_valid(#[trigger] s0.entry(m0, w)) implies !self.data().contains(
                pte_ppn(s0.entry(m0, w)),
            ) by {
                assert(w % SLOTS < v);
            }
            assert forall|w: u64| !pte_valid(#[trigger] self.entry(*mem, w)) by {
                assert(w % SLOTS < v);
            }
        }
    }
}

} // verus!
