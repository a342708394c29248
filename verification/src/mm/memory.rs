//! A model of physical memory: a run of 4 KiB frames, each read as 512
//! 64-bit words, together with the stack of frames that are free.
use vstd::prelude::*;
use crate::mm::address::{PhysAddr, PhysPageNum, PAGE_SIZE, PPN_LIMIT};

verus! {

/// Number of 64-bit words in a frame.
pub const WORDS_PER_FRAME: u64 = 512;

/// Physical memory: the frames `base .. base + n`, and the frames that are
/// free to hand out.
pub struct PhysMemory {
    base: u64,
    words: Vec<u64>,
    free: Vec<u64>,
}

proof fn lemma_slot_in_bounds(x: int, i: int, n: int)
    requires
        0 <= x < n / 512,
        0 <= i < 512,
        n % 512 == 0,
        n >= 0,
    ensures
        0 <= x * 512 + i < n,
{
    assert(x * 512 + i < n) by (nonlinear_arith)
        requires
            0 <= x < n / 512,
            0 <= i < 512,
            n % 512 == 0,
            n >= 0,
    ;
}

proof fn lemma_slot_distinct(x: int, i: int, y: int, j: int)
    requires
        0 <= x,
        0 <= y,
        0 <= i < 512,
        0 <= j < 512,
        x * 512 + i == y * 512 + j,
    ensures
        x == y,
        i == j,
{
    assert(x == y && i == j) by (nonlinear_arith)
        requires
            0 <= x,
            0 <= y,
            0 <= i < 512,
            0 <= j < 512,
            x * 512 + i == y * 512 + j,
    ;
}

impl PhysMemory {
    /// Number of frames.
    pub closed spec fn nframes(&self) -> nat {
        self.words@.len() / 512
    }

    /// Whether frame `p` exists.
    pub closed spec fn has_frame(&self, p: u64) -> bool {
        self.base <= p < self.base + self.nframes()
    }

    /// Word `i` of frame `p`; memory that does not exist reads as zero.
    pub closed spec fn word(&self, p: u64, i: u64) -> u64 {
        if self.has_frame(p) && i < 512 {
            self.words@[(p - self.base) * 512 + i]
        } else {
            0
        }
    }

    /// Byte `pa` of physical memory (words are little-endian).
    pub open spec fn byte(&self, pa: u64) -> u8 {
        (self.word(pa / 4096, (pa % 4096) / 8) >> (8 * (pa % 8)) as u64) as u8
    }

    /// The frames that are free to hand out.
    pub closed spec fn free_set(&self) -> Set<u64> {
        self.free@.to_set()
    }

    /// The free frame that is handed out next (the most recently freed).
    pub closed spec fn next_free(&self) -> u64 {
        self.free@.last()
    }

    /// Number of free frames.
    pub closed spec fn free_count(&self) -> nat {
        self.free@.len()
    }

    pub closed spec fn wf(&self) -> bool {
        &&& self.words.len() % 512 == 0
        &&& self.base + self.nframes() <= PPN_LIMIT
        &&& self.free@.no_duplicates()
        &&& forall|k: int| 0 <= k < self.free@.len() ==> #[trigger] self.has_frame(self.free@[k])
    }

    /// What a well-formed memory guarantees of its frames.
    pub proof fn lemma_wf(&self)
        requires
            self.wf(),
        ensures
            forall|p: u64| #[trigger] self.has_frame(p) ==> p < PPN_LIMIT,
            forall|p: u64| #[trigger] self.free_set().contains(p) ==> self.has_frame(p),
            self.free_set().finite(),
            self.free_set().len() == self.free_count(),
    {
        assert forall|p: u64| #[trigger] self.free_set().contains(p) implies self.has_frame(p) by {
            let k = choose|k: int| 0 <= k < self.free@.len() && self.free@[k] == p;
            assert(self.has_frame(self.free@[k]));
        }
        self.free@.unique_seq_to_set();
    }

    /// Every frame number of memory is a valid physical page number.
    pub proof fn lemma_wf_frames(&self)
        requires
            self.wf(),
        ensures
            forall|p: u64| #[trigger] self.has_frame(p) ==> p < PPN_LIMIT,
    {
    }

    /// A memory of `nframes` zeroed frames starting at frame `base`, all free.
    pub fn new(base: u64, nframes: u64) -> (r: PhysMemory)
        requires
            base + nframes <= PPN_LIMIT,
            nframes * 512 <= usize::MAX,
        ensures
            r.wf(),
            r.nframes() == nframes,
            forall|p: u64| #[trigger] r.has_frame(p) <==> base <= p < base + nframes,
            forall|p: u64, i: u64| #[trigger] r.word(p, i) == 0,
            forall|p: u64| #[trigger] r.free_set().contains(p) <==> base <= p < base + nframes,
            r.free_count() == nframes,
            nframes > 0 ==> r.next_free() == base,
    {
        let n: usize = (nframes * 512) as usize;
        let words: Vec<u64> = vec![0u64; n];
        let mut free: Vec<u64> = Vec::new();
        let mut k: u64 = nframes;
        while k > 0
            invariant
                k <= nframes,
                base + nframes <= PPN_LIMIT,
                free@.len() == nframes - k,
                forall|j: int| 0 <= j < free@.len() ==> free@[j] == base + nframes - 1 - j,
            decreases k,
        {
            k = k - 1;
            free.push(base + k);
        }
        let r = PhysMemory { base, words, free };
        assert(r.nframes() == nframes) by {
            assert((nframes * 512) / 512 == nframes) by (nonlinear_arith);
        }
        assert(n % 512 == 0) by {
            assert((nframes * 512) % 512 == 0) by (nonlinear_arith);
        }
        assert forall|p: u64, i: u64| #[trigger] r.word(p, i) == 0 by {
            if r.has_frame(p) && i < 512 {
                lemma_slot_in_bounds((p - base) as int, i as int, n as int);
            }
        }
        assert forall|p: u64| #[trigger] r.free_set().contains(p) <==> base <= p < base + nframes by {
            if base <= p < base + nframes {
                let j: int = (base + nframes - 1 - p) as int;
                assert(r.free@[j] == p);
            }
        }
        r
    }

    /// Word `idx` of frame `ppn` (zero where there is no such memory).
    pub fn read_word(&self, ppn: PhysPageNum, idx: u64) -> (r: u64)
        requires
            self.wf(),
        ensures
            r == self.word(ppn.0, idx),
    {
        let p = ppn.0;
        if p >= self.base && p - self.base < self.words.len() as u64 / 512 && idx < 512 {
            proof {
                lemma_slot_in_bounds((p - self.base) as int, idx as int, self.words.len() as int);
            }
            self.words[((p - self.base) * 512 + idx) as usize]
        } else {
            0
        }
    }

    /// Byte `pa` of physical memory.
    pub fn read_byte(&self, pa: PhysAddr) -> (r: u8)
        requires
            self.wf(),
        ensures
            r == self.byte(pa.0),
    {
        let w = self.read_word(pa.floor(), pa.page_offset() / 8);
        let s: u64 = 8 * (pa.0 % 8);
        assert(s < 64);
        (w >> s) as u8
    }

    /// Set word `idx` of frame `ppn` to `v`.
    pub fn write_word(&mut self, ppn: PhysPageNum, idx: u64, v: u64)
        requires
            old(self).wf(),
            old(self).has_frame(ppn.0),
            idx < 512,
        ensures
            final(self).wf(),
            forall|p: u64| #[trigger] final(self).has_frame(p) == old(self).has_frame(p),
            forall|p: u64, i: u64|
                #[trigger] final(self).word(p, i) == if p == ppn.0 && i == idx {
                    v
                } else {
                    old(self).word(p, i)
                },
            final(self).free_set() == old(self).free_set(),
            final(self).free_count() == old(self).free_count(),
    {
        let ghost old_self = *self;
        let p = ppn.0;
        proof {
            lemma_slot_in_bounds((p - self.base) as int, idx as int, self.words.len() as int);
        }
        let k = ((p - self.base) * 512 + idx) as usize;
        self.words.set(k, v);
        assert(self.words@.len() == old_self.words@.len());
        assert(self.nframes() == old_self.nframes());
        assert forall|k2: int| 0 <= k2 < self.free@.len() implies #[trigger] self.has_frame(self.free@[k2]) by {
            assert(old_self.has_frame(old_self.free@[k2]));
        }
        assert forall|q: u64, i: u64| #[trigger] self.word(q, i) == if q == p && i == idx {
            v
        } else {
            old_self.word(q, i)
        } by {
            if self.has_frame(q) && i < 512 {
                lemma_slot_in_bounds((q - self.base) as int, i as int, self.words.len() as int);
                if (q - self.base) * 512 + i == k {
                    lemma_slot_distinct(
                        (q - self.base) as int,
                        i as int,
                        (p - self.base) as int,
                        idx as int,
                    );
                }
            }
        }
    }

    /// Number of free frames.
    pub fn free_frames(&self) -> (r: usize)
        ensures
            r == self.free_count(),
    {
        self.free.len()
    }

    /// Set byte `pa` of physical memory to `b`; every other byte keeps its
    /// value.
    pub fn write_byte(&mut self, pa: PhysAddr, b: u8)
        requires
            old(self).wf(),
            old(self).has_frame(pa.0 / 4096),
        ensures
            final(self).wf(),
            forall|p: u64| #[trigger] final(self).has_frame(p) == old(self).has_frame(p),
            final(self).free_set() == old(self).free_set(),
            final(self).free_count() == old(self).free_count(),
            final(self).byte(pa.0) == b,
            forall|q: u64| q != pa.0 ==> #[trigger] final(self).byte(q) == old(self).byte(q),
            forall|p: u64, i: u64|
                p != pa.0 / 4096 ==> #[trigger] final(self).word(p, i) == old(self).word(p, i),
    {
        let ghost old_self = *self;
        let ppn = pa.floor();
        let idx = pa.page_offset() / 8;
        let w = self.read_word(ppn, idx);
        let sh: u64 = 8 * (pa.0 % 8);
        let nw = (w & !(0xffu64 << sh)) | ((b as u64) << sh);
        self.write_word(ppn, idx, nw);
        proof {
            assert(sh % 8 == 0);
            assert((((w & !(0xffu64 << sh)) | ((b as u64) << sh)) >> sh) as u8 == b) by (bit_vector)
                requires
                    sh < 64,
                    sh % 8 == 0,
            ;
            assert forall|q: u64| q != pa.0 implies #[trigger] self.byte(q) == old_self.byte(q) by {
                let t: u64 = (8 * (q % 8)) as u64;
                if q / 4096 == pa.0 / 4096 && (q % 4096) / 8 == idx {
                    assert(q % 8 != pa.0 % 8) by (nonlinear_arith)
                        requires
                            q != pa.0,
                            q / 4096 == pa.0 / 4096,
                            (q % 4096) / 8 == (pa.0 % 4096) / 8,
                    ;
                    assert(t != sh && t % 8 == 0 && sh % 8 == 0 && t < 64);
                    assert((((w & !(0xffu64 << sh)) | ((b as u64) << sh)) >> t) as u8 == (w >> t) as u8) by (bit_vector)
                        requires
                            sh < 64,
                            t < 64,
                            t != sh,
                            t % 8 == 0,
                            sh % 8 == 0,
                    ;
                }
            }
        }
    }

    /// Whether frame `p` exists.
    pub fn contains_frame(&self, p: u64) -> (r: bool)
        ensures
            r == self.has_frame(p),
    {
        self.base <= p && p - self.base < (self.words.len() / 512) as u64
    }

    /// Store `v` little-endian in the eight bytes from `pa` on, which lie in
    /// one frame; every other byte keeps its value.
    pub fn write_u64_le(&mut self, pa: PhysAddr, v: u64)
        requires
            old(self).wf(),
            old(self).has_frame(pa.0 / 4096),
            pa.0 % 4096 + 8 <= 4096,
        ensures
            final(self).wf(),
            forall|p: u64| #[trigger] final(self).has_frame(p) == old(self).has_frame(p),
            final(self).free_set() == old(self).free_set(),
            final(self).free_count() == old(self).free_count(),
            forall|k: u64| k < 8 ==> #[trigger] final(self).byte((pa.0 + k) as u64) == (v >> (8 * k)) as u8,
            forall|q: u64| !(pa.0 <= q < pa.0 + 8) ==> #[trigger] final(self).byte(q) == old(self).byte(q),
            forall|p: u64, i: u64|
                p != pa.0 / 4096 ==> #[trigger] final(self).word(p, i) == old(self).word(p, i),
    {
        let ghost old_self = *self;
        let mut k: u64 = 0;
        while k < 8
            invariant
                self.wf(),
                k <= 8,
                old_self.has_frame(pa.0 / 4096),
                pa.0 % 4096 + 8 <= 4096,
                forall|p: u64| #[trigger] self.has_frame(p) == old_self.has_frame(p),
                self.free_set() == old_self.free_set(),
                self.free_count() == old_self.free_count(),
                forall|j: u64| j < k ==> #[trigger] self.byte((pa.0 + j) as u64) == (v >> (8 * j)) as u8,
                forall|q: u64| !(pa.0 <= q < pa.0 + k) ==> #[trigger] self.byte(q) == old_self.byte(q),
                forall|p: u64, i: u64|
                    p != pa.0 / 4096 ==> #[trigger] self.word(p, i) == old_self.word(p, i),
            decreases 8 - k,
        {
            let a = pa.0 + k;
            assert(a / 4096 == pa.0 / 4096) by (nonlinear_arith)
                requires
                    a == pa.0 + k,
                    k < 8,
                    pa.0 % 4096 + 8 <= 4096,
            ;
            let ghost before = *self;
            self.write_byte(PhysAddr(a), (v >> (8 * k)) as u8);
            proof {
                assert forall|j: u64| j < k + 1 implies #[trigger] self.byte((pa.0 + j) as u64) == (v >> (8
                    * j)) as u8 by {
                    if j < k {
                        assert(before.byte((pa.0 + j) as u64) == (v >> (8 * j)) as u8);
                    }
                }
            }
            k = k + 1;
        }
    }

    /// Give frame `ppn`, which is in use, back to the free frames; it is the
    /// next one handed out.
    pub fn frame_dealloc(&mut self, ppn: PhysPageNum)
        requires
            old(self).wf(),
            old(self).has_frame(ppn.0),
            !old(self).free_set().contains(ppn.0),
        ensures
            final(self).wf(),
            forall|p: u64| #[trigger] final(self).has_frame(p) == old(self).has_frame(p),
            forall|p: u64, i: u64| #[trigger] final(self).word(p, i) == old(self).word(p, i),
            final(self).free_set() == old(self).free_set().insert(ppn.0),
            final(self).free_count() == old(self).free_count() + 1,
            final(self).next_free() == ppn.0,
    {
        let ghost s0 = self.free@;
        let ghost old_self = *self;
        self.free.push(ppn.0);
        proof {
            assert(self.free@ == s0.push(ppn.0));
            assert(self.free@.to_set() =~= s0.to_set().insert(ppn.0)) by {
                assert forall|x: u64| #[trigger] self.free@.to_set().contains(x) implies s0.to_set().insert(ppn.0).contains(x) by {
                    let k = choose|k: int| 0 <= k < self.free@.len() && self.free@[k] == x;
                    if k < s0.len() {
                        assert(s0[k] == x);
                    }
                }
                assert forall|x: u64| #[trigger] s0.to_set().insert(ppn.0).contains(x) implies self.free@.to_set().contains(x) by {
                    if x == ppn.0 {
                        assert(self.free@[s0.len() as int] == x);
                    } else {
                        let k = choose|k: int| 0 <= k < s0.len() && s0[k] == x;
                        assert(self.free@[k] == x);
                    }
                }
            }
            assert(self.free@.no_duplicates()) by {
                assert forall|i: int, j: int| 0 <= i < j < self.free@.len() implies self.free@[i] != self.free@[j] by {
                    if j == s0.len() {
                        assert(s0.to_set().contains(s0[i]));
                    } else {
                        assert(s0[i] != s0[j]);
                    }
                }
            }
            assert forall|k: int| 0 <= k < self.free@.len() implies #[trigger] self.has_frame(self.free@[k]) by {
                if k < s0.len() {
                    assert(old_self.has_frame(s0[k]));
                }
            }
        }
    }

    /// Take a free frame and clear it; `None` when no frame is free.
    pub fn frame_alloc(&mut self) -> (r: Option<PhysPageNum>)
        requires
            old(self).wf(),
        ensures
            final(self).wf(),
            forall|p: u64| #[trigger] final(self).has_frame(p) == old(self).has_frame(p),
            match r {
                None => {
                    &&& old(self).free_count() == 0
                    &&& *final(self) == *old(self)
                },
                Some(f) => {
                    &&& old(self).free_count() > 0
                    &&& f.0 == old(self).next_free()
                    &&& old(self).free_set().contains(f.0)
                    &&& final(self).free_set() == old(self).free_set().remove(f.0)
                    &&& final(self).free_count() == old(self).free_count() - 1
                    &&& forall|p: u64, i: u64|
                        #[trigger] final(self).word(p, i) == if p == f.0 {
                            0
                        } else {
                            old(self).word(p, i)
                        }
                },
            },
    {
        let ghost old_self = *self;
        if self.free.len() == 0 {
            return None;
        }
        let p = self.free.pop().unwrap();
        proof {
            let s = old_self.free@;
            assert(s.last() == p);
            assert(old_self.has_frame(s[s.len() - 1]));
            assert(s.drop_last().to_set() =~= s.to_set().remove(p)) by {
                assert forall|x: u64| #[trigger] s.to_set().remove(p).contains(x) implies s.drop_last().to_set().contains(x) by {
                    let k = choose|k: int| 0 <= k < s.len() && s[k] == x;
                    assert(k != s.len() - 1);
                    assert(s.drop_last()[k] == x);
                }
                assert forall|x: u64| #[trigger] s.drop_last().to_set().contains(x) implies s.to_set().remove(p).contains(x) by {
                    let k = choose|k: int| 0 <= k < s.len() - 1 && s.drop_last()[k] == x;
                    assert(s[k] == x);
                    assert(s[s.len() - 1] == p);
                }
            }
            assert forall|k: int| 0 <= k < self.free@.len() implies #[trigger] self.has_frame(self.free@[k]) by {
                assert(self.free@[k] == s[k]);
                assert(old_self.has_frame(s[k]));
            }
        }
        let ppn = PhysPageNum(p);
        let mut i: u64 = 0;
        while i < 512
            invariant
                self.wf(),
                i <= 512,
                old_self.has_frame(p),
                ppn.0 == p,
                forall|q: u64| #[trigger] self.has_frame(q) == old_self.has_frame(q),
                self.free_set() == old_self.free_set().remove(p),
                self.free_count() == old_self.free_count() - 1,
                forall|q: u64, j: u64|
                    #[trigger] self.word(q, j) == if q == p && j < i {
                        0
                    } else {
                        old_self.word(q, j)
                    },
            decreases 512 - i,
        {
            assert(self.has_frame(p));
            let ghost before = *self;
            self.write_word(ppn, i, 0);
            assert forall|q: u64, j: u64| #[trigger] self.word(q, j) == if q == p && j < i + 1 {
                0
            } else {
                old_self.word(q, j)
            } by {
                assert(self.word(q, j) == if q == p && j == i { 0 } else { before.word(q, j) });
            }
            i = i + 1;
        }
        assert forall|q: u64, j: u64| #[trigger] self.word(q, j) == if q == p {
            0
        } else {
            old_self.word(q, j)
        } by {
            if q == p && j >= 512 {
                assert(self.word(q, j) == 0);
                assert(old_self.word(q, j) == 0);
            }
        }
        Some(ppn)
    }
}

/// `m_new` differs from `m_old` only in frames of `owned` and in frames that
/// were free in `m_old`; only frames of `owned` became free.
pub open spec fn changed_only(m_old: PhysMemory, m_new: PhysMemory, owned: Set<u64>) -> bool {
    &&& forall|p: u64| #[trigger] m_new.has_frame(p) == m_old.has_frame(p)
    &&& m_new.free_set().subset_of(m_old.free_set().union(owned))
    &&& forall|p: u64, i: u64|
        !owned.contains(p) && !m_old.free_set().contains(p) ==> #[trigger] m_new.word(p, i)
            == m_old.word(p, i)
}

/// `m2` reads the same as `m1` in every frame of `s`.
pub open spec fn agree_on(m1: PhysMemory, m2: PhysMemory, s: Set<u64>) -> bool {
    forall|p: u64, i: u64| s.contains(p) ==> #[trigger] m2.word(p, i) == m1.word(p, i)
}

} // verus!
