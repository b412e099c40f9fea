//! Walking the list of segment records.
use vstd::prelude::*;
use crate::arith;
use crate::lists;
use crate::memory::Segment;
use crate::state;
use crate::state::{Dlmalloc, Seg, SEGMENT_ADDR};

verus! {

/// The flag of segments that the allocator did not get from the system itself.
pub const EXTERN: u32 = 1;

impl Segment {
    /// Whether the segment came from elsewhere.
    pub fn is_extern(seg: &Segment) -> (r: bool)
        ensures
            r == (seg.flags % 2 == 1),
    {
        let f: u32 = seg.flags;
        assert((f & 1 != 0) <==> f % 2 == 1) by (bit_vector);
        f & EXTERN != 0
    }

    /// What the system said of the segment.
    pub fn sys_flags(seg: &Segment) -> (r: u32)
        ensures
            r == seg.flags / 2,
    {
        let f: u32 = seg.flags;
        assert(f >> 1 == f / 2) by (bit_vector);
        f >> 1
    }

    /// Whether `addr` lies in the segment.
    pub fn holds(seg: &Segment, addr: usize) -> (r: bool)
        ensures
            r == (seg.base <= addr < seg.base + seg.size),
    {
        seg.base <= addr && addr - seg.base < seg.size
    }

    /// The end of the segment.
    pub fn top(seg: &Segment) -> (r: usize)
        requires
            seg.base + seg.size <= usize::MAX,
        ensures
            r == seg.base + seg.size,
    {
        seg.base + seg.size
    }
}

/// The address of the record of segment `i`, or zero behind the last.
pub open spec fn record_addr(segs: Seq<Seg>, i: int) -> int {
    if 0 <= i < segs.len() {
        segs[i].at
    } else {
        0
    }
}

/// The address `x` lies in segment `g`.
pub open spec fn in_seg(g: Seg, x: int) -> bool {
    g.base <= x < g.base + g.size
}

impl Dlmalloc {
    /// What the record of segment `i` says.
    pub(crate) proof fn lemma_record(&self, i: int)
        requires
            self.phys_wf(),
            self.segs_wf(),
            0 <= i < self.model@.segs.len(),
        ensures
            ({
                let segs = self.model@.segs;
                let g = segs[i];
                let s = state::record_of(segs, i);
                &&& s.base == g.base
                &&& s.size == g.size
                &&& s.flags == g.flags
                &&& s.next == record_addr(segs, i + 1)
                &&& g.base + g.size <= usize::MAX
                &&& i == 0 ==> g.at == SEGMENT_ADDR && self.seg == s
                &&& i > 0 ==> {
                    &&& g.at > SEGMENT_ADDR
                    &&& self.mem.records@[g.at] == s
                    &&& in_seg(g, g.at)
                    &&& g.at <= usize::MAX
                }
            }),
    {
        let segs = self.model@.segs;
        let c = self.model@.chunks;
        assert(state::seg_ok(c, segs, self.top as int, i));
        if i + 1 < segs.len() {
            assert(state::seg_ok(c, segs, self.top as int, i + 1));
            let rec = segs[i + 1].at - 2 * arith::word();
            assert(state::chunk_ok(c, self.mem.heads@, self.mem.feet@, rec));
        }
        if i > 0 {
            let rec = segs[i].at - 2 * arith::word();
            assert(state::chunk_ok(c, self.mem.heads@, self.mem.feet@, rec));
            assert(state::within(c, segs, i, rec));
        }
    }

    /// The segment record at `sp`.
    pub(crate) fn segment_at(&self, sp: usize) -> (r: Segment)
        ensures
            r == if sp == SEGMENT_ADDR {
                self.seg
            } else {
                self.mem.records@[sp as int]
            },
    {
        if sp == SEGMENT_ADDR {
            self.seg
        } else {
            self.mem.records.get(sp)
        }
    }

    /// Writes the segment record at `sp`.
    pub(crate) fn set_segment(&mut self, sp: usize, s: Segment)
        ensures
            if sp == SEGMENT_ADDR {
                *final(self) == (Dlmalloc { seg: s, ..*old(self) })
            } else {
                &&& *final(self) == (Dlmalloc { mem: final(self).mem, ..*old(self) })
                &&& final(self).mem == (crate::memory::Memory {
                    records: final(self).mem.records,
                    ..old(self).mem
                })
                &&& final(self).mem.records@ == old(self).mem.records@.insert(sp as int, s)
            },
    {
        if sp == SEGMENT_ADDR {
            self.seg = s;
        } else {
            self.mem.records.set(sp, s);
        }
    }

    /// The segment record at `a`.
    pub open(crate) spec fn record_words(&self, a: int) -> Segment {
        if a == SEGMENT_ADDR {
            self.seg
        } else {
            self.mem.records@[a]
        }
    }

    /// Where the record is that each record names.
    pub open(crate) spec fn record_links(&self) -> Map<int, usize> {
        Map::total(|a: int| self.record_words(a).next)
    }

    /// Where the record is that is `k` links away from the own one.
    pub open(crate) spec fn chain(&self, k: int) -> int {
        lists::nth(self.record_links(), SEGMENT_ADDR as int, k)
    }

    /// The links of the segment records come to an end.
    pub open(crate) spec fn records_end(&self) -> bool {
        exists|k: int| 0 <= k && #[trigger] self.chain(k) == 0
    }

    /// The record that is `k` links away is there, and `p` lies in its segment.
    pub open(crate) spec fn holds_at(&self, k: int, p: int) -> bool {
        let s = self.record_words(self.chain(k));
        &&& 0 <= k
        &&& forall|i: int| 0 <= i <= k ==> #[trigger] self.chain(i) != 0
        &&& s.base <= p < s.base + s.size
    }

    /// The first record with `p` in its segment is `k` links away.
    pub open(crate) spec fn first_holds(&self, k: int, p: int) -> bool {
        &&& self.holds_at(k, p)
        &&& forall|i: int| 0 <= i < k ==> !#[trigger] self.holds_at(i, p)
    }

    /// The record of the segment that `ptr` lies in, or zero.
    pub(crate) fn segment_holding(&self, ptr: usize) -> (r: usize)
        requires
            self.records_end(),
        ensures
            r == 0 ==> forall|k: int| !#[trigger] self.holds_at(k, ptr as int),
            r != 0 ==> exists|k: int| #[trigger]
                self.first_holds(k, ptr as int) && self.chain(k) == r,
    {
        let mut sp: usize = SEGMENT_ADDR;
        let ghost mut k = 0int;
        let ghost n = choose|n: int| 0 <= n && #[trigger] self.chain(n) == 0;
        while sp != 0
            invariant
                0 <= k <= n,
                self.chain(n) == 0,
                sp == self.chain(k),
                forall|i: int| 0 <= i < k ==> #[trigger] self.chain(i) != 0,
                forall|i: int| 0 <= i < k ==> !#[trigger] self.holds_at(i, ptr as int),
            decreases n - k,
        {
            let s: Segment = self.segment_at(sp);
            if Segment::holds(&s, ptr) {
                assert(self.first_holds(k, ptr as int));
                return sp;
            }
            sp = s.next;
            proof {
                assert(!self.holds_at(k, ptr as int));
                assert(self.chain(k + 1) == sp);
                k = k + 1;
            }
        }
        proof {
            assert forall|i: int| !#[trigger] self.holds_at(i, ptr as int) by {
                if i >= k {
                    assert(self.chain(k) == 0);
                }
            }
        }
        0
    }

    /// The records in the order of the segments.
    pub(crate) proof fn lemma_chain(&self, k: int)
        requires
            self.phys_wf(),
            self.segs_wf(),
            0 <= k <= self.model@.segs.len(),
            self.model@.segs.len() > 0,
        ensures
            self.chain(k) == record_addr(self.model@.segs, k),
            k < self.model@.segs.len() ==> self.chain(k) != 0 && self.record_words(self.chain(k))
                == state::record_of(self.model@.segs, k),
        decreases k,
    {
        if k > 0 {
            self.lemma_chain(k - 1);
            self.lemma_record(k - 1);
        }
        if k < self.model@.segs.len() {
            self.lemma_record(k);
        }
    }

    /// The links of the segment records come to an end behind the last segment.
    pub(crate) proof fn lemma_chain_ends(&self)
        requires
            self.phys_wf(),
            self.segs_wf(),
        ensures
            self.records_end(),
    {
        let n = self.model@.segs.len() as int;
        if n > 0 {
            self.lemma_chain(n);
        } else {
            assert(self.chain(1) == self.record_words(self.chain(0)).next);
            assert(self.chain(1) == 0);
        }
    }

    /// Which segment the first record with `p` in its segment is of.
    pub(crate) proof fn lemma_holder(&self, k: int, p: int)
        requires
            self.phys_wf(),
            self.segs_wf(),
            self.holds_at(k, p),
        ensures
            0 <= k < self.model@.segs.len(),
            in_seg(self.model@.segs[k], p),
            self.chain(k) == self.model@.segs[k].at,
            self.record_words(self.chain(k)).base == self.model@.segs[k].base,
            self.record_words(self.chain(k)).size == self.model@.segs[k].size,
    {
        let n = self.model@.segs.len() as int;
        if n == 0 {
            if k == 0 {
                assert(self.record_words(self.chain(0)).size == 0);
            } else {
                assert(self.chain(1) == self.record_words(self.chain(0)).next);
                assert(self.chain(1) == 0);
            }
        } else if k >= n {
            self.lemma_chain(n);
        } else {
            self.lemma_chain(k);
            self.lemma_record(k);
        }
    }

    /// A segment that `p` lies in has the first record for it.
    pub(crate) proof fn lemma_held(&self, i: int, p: int)
        requires
            self.phys_wf(),
            self.segs_wf(),
            0 <= i < self.model@.segs.len(),
            in_seg(self.model@.segs[i], p),
        ensures
            self.first_holds(i, p),
    {
        let segs = self.model@.segs;
        assert forall|k: int| 0 <= k <= i implies #[trigger] self.chain(k) != 0 by {
            self.lemma_chain(k);
        }
        self.lemma_chain(i);
        self.lemma_record(i);
        assert forall|k: int| 0 <= k < i implies !#[trigger] self.holds_at(k, p) by {
            self.lemma_chain(k);
            self.lemma_record(k);
            assert(state::segs_apart(segs[k], segs[i]));
        }
    }

    /// Whether the segment `seg` holds the record of any segment.
    pub(crate) fn has_segment_link(&self, seg: &Segment) -> (r: bool)
        requires
            self.phys_wf(),
            self.segs_wf(),
            self.model@.segs.len() > 0,
            seg.base + seg.size <= usize::MAX,
        ensures
            r <==> exists|i: int|
                0 <= i < self.model@.segs.len() && seg.base <= #[trigger] self.model@.segs[i].at
                    < seg.base + seg.size,
    {
        let ghost segs = self.model@.segs;
        let mut sp: usize = SEGMENT_ADDR;
        let ghost mut k = 0int;
        proof {
            self.lemma_record(0);
        }
        while sp != 0
            invariant
                self.phys_wf(),
                self.segs_wf(),
                segs == self.model@.segs,
                seg.base + seg.size <= usize::MAX,
                0 <= k <= segs.len(),
                segs.len() > 0,
                sp == record_addr(segs, k),
                forall|i: int|
                    0 <= i < k ==> !(seg.base <= #[trigger] segs[i].at < seg.base + seg.size),
            decreases segs.len() - k,
        {
            proof {
                self.lemma_record(k);
            }
            if Segment::holds(seg, sp) {
                assert(segs[k].at == sp);
                return true;
            }
            sp = self.segment_at(sp).next;
            proof {
                k = k + 1;
            }
        }
        proof {
            if k < segs.len() {
                self.lemma_record(k);
            }
        }
        false
    }

    /// The record of the segment that ends at `x`, or zero.
    pub(crate) fn segment_ending(&self, x: usize) -> (r: usize)
        requires
            self.phys_wf(),
            self.segs_wf(),
            self.model@.segs.len() > 0,
        ensures
            r == 0 ==> forall|i: int|
                #![trigger self.model@.segs[i]]
                0 <= i < self.model@.segs.len() ==> self.model@.segs[i].base
                    + self.model@.segs[i].size != x,
            r != 0 ==> exists|i: int|
                0 <= i < self.model@.segs.len() && #[trigger] self.model@.segs[i].at == r
                    && self.model@.segs[i].base + self.model@.segs[i].size == x,
    {
        let ghost segs = self.model@.segs;
        let mut sp: usize = SEGMENT_ADDR;
        let ghost mut k = 0int;
        proof {
            self.lemma_record(0);
        }
        while sp != 0
            invariant
                self.phys_wf(),
                self.segs_wf(),
                segs == self.model@.segs,
                0 <= k <= segs.len(),
                segs.len() > 0,
                sp == record_addr(segs, k),
                forall|i: int|
                    #![trigger segs[i]]
                    0 <= i < k ==> segs[i].base + segs[i].size != x,
            decreases segs.len() - k,
        {
            proof {
                self.lemma_record(k);
            }
            let s: Segment = self.segment_at(sp);
            if x == Segment::top(&s) {
                assert(segs[k].at == sp);
                return sp;
            }
            sp = s.next;
            proof {
                k = k + 1;
            }
        }
        proof {
            if k < segs.len() {
                self.lemma_record(k);
            }
        }
        0
    }

    /// The record of the segment that starts at `x`, or zero.
    pub(crate) fn segment_starting(&self, x: usize) -> (r: usize)
        requires
            self.phys_wf(),
            self.segs_wf(),
            self.model@.segs.len() > 0,
        ensures
            r == 0 ==> forall|i: int|
                0 <= i < self.model@.segs.len() ==> (#[trigger] self.model@.segs[i]).base != x,
            r != 0 ==> exists|i: int|
                0 <= i < self.model@.segs.len() && #[trigger] self.model@.segs[i].at == r
                    && self.model@.segs[i].base == x,
    {
        let ghost segs = self.model@.segs;
        let mut sp: usize = SEGMENT_ADDR;
        let ghost mut k = 0int;
        proof {
            self.lemma_record(0);
        }
        while sp != 0
            invariant
                self.phys_wf(),
                self.segs_wf(),
                segs == self.model@.segs,
                0 <= k <= segs.len(),
                segs.len() > 0,
                sp == record_addr(segs, k),
                forall|i: int| 0 <= i < k ==> (#[trigger] segs[i]).base != x,
            decreases segs.len() - k,
        {
            proof {
                self.lemma_record(k);
            }
            let s: Segment = self.segment_at(sp);
            if s.base == x {
                assert(segs[k].at == sp);
                return sp;
            }
            sp = s.next;
            proof {
                k = k + 1;
            }
        }
        proof {
            if k < segs.len() {
                self.lemma_record(k);
            }
        }
        0
    }
}

} // verus!
