//! Giving segments back to the system.
use vstd::prelude::*;
use crate::arith;
use crate::carve;
use crate::chunk::Chunk;
use crate::freelists;
use crate::grow::MAX_RELEASE_CHECK_RATE;
use crate::memory::{Memory, Segment};
use crate::segments;
use crate::segwalk;
use crate::state;
use crate::state::{Block, Dlmalloc, Heap, Model, Seg, Tag, SEGMENT_ADDR};
use crate::words;

verus! {

/// What the system says to giving back a segment.
#[derive(Clone, Copy, Debug, PartialEq, Eq, Structural)]
pub enum Reply {
    /// Such a segment cannot be given back.
    Kept,
    /// The system has not taken it.
    Failed,
    /// The system has taken it.
    Freed,
}

impl Heap {
    /// Free chunk `p` of size `s` leaves its free list, or is no longer the designated victim.
    pub open spec fn unlist(self, s: int, p: int) -> Heap {
        if p == self.dv {
            Heap { dv: 0, dvsize: 0, ..self }
        } else {
            self.take(s, p)
        }
    }

    /// Segment `k` came from the system and holds nothing but a free chunk and its own record.
    pub open spec fn unused(self, k: int) -> bool {
        let g = self.segs[k];
        let b = self.chunks[g.base];
        &&& g.flags % 2 == 0
        &&& b.tag is Free
        &&& b.size >= g.size - 10 * arith::word()
    }

    /// Segment `k`, which is unused, is gone.
    pub open spec fn drop_seg(self, k: int) -> Heap {
        let g = self.segs[k];
        let h = self.unlist(self.chunks[g.base].size, g.base);
        Heap {
            chunks: h.chunks.remove(g.base).remove(g.at - 2 * arith::word()),
            segs: self.segs.remove(k),
            footprint: self.footprint - g.size,
            ..h
        }
    }

    /// The free chunk of segment `k`, which is unused, is put into the free list for its size.
    pub open spec fn rebin(self, k: int) -> Heap {
        let g = self.segs[k];
        let s = self.chunks[g.base].size;
        self.unlist(s, g.base).put(s, g.base)
    }

    /// What the system's replies do to the segments from `k` on, and how many bytes it has
    /// taken. A segment without a reply is kept.
    pub open spec fn release_from(self, k: int, replies: Seq<Reply>) -> (Heap, int)
        decreases replies.len(),
    {
        if k >= self.segs.len() || replies.len() == 0 {
            (self, 0)
        } else {
            let rest = replies.drop_first();
            if replies[0] is Kept || !self.unused(k) {
                self.release_from(k + 1, rest)
            } else if replies[0] is Failed {
                self.rebin(k).release_from(k + 1, rest)
            } else {
                let (h, r) = self.drop_seg(k).release_from(k, rest);
                (h, r + self.segs[k].size)
            }
        }
    }

    /// What the system's replies for all segments but the newest do, and how many bytes it has
    /// taken.
    pub open spec fn release(self, replies: Seq<Reply>) -> (Heap, int) {
        let (h, r) = self.release_from(1, replies);
        let n = self.segs.len() - 1;
        (
            Heap {
                release_checks: if n > MAX_RELEASE_CHECK_RATE {
                    n
                } else {
                    MAX_RELEASE_CHECK_RATE as int
                },
                ..h
            },
            r,
        )
    }
}

/// The chunks of an unused segment.
pub(crate) proof fn lemma_unused(d: Dlmalloc, loose: Set<int>, k: int)
    requires
        d.wf_but(loose),
        1 <= k < d.model@.segs.len(),
        d@.unused(k),
    ensures
        ({
            let c = d.model@.chunks;
            let g = d.model@.segs[k];
            let rec = g.at - 2 * arith::word();
            &&& c.contains_key(g.base)
            &&& c.contains_key(rec)
            &&& c[rec] == (Block { size: 6 * arith::word(), tag: Tag::Record })
            &&& g.base + c[g.base].size == rec
            &&& rec == g.base + g.size - 10 * arith::word()
            &&& 0 < g.size <= d.footprint
            &&& forall|q: int| #[trigger]
                c.contains_key(q) ==> q == g.base || q == rec || q + c[q].size < g.base || g.base
                    + g.size <= q
            &&& g.base != d.top
            &&& rec != d.top
        }),
{
    let c = d.model@.chunks;
    let segs = d.model@.segs;
    let g = segs[k];
    let top = d.top as int;
    let rec = g.at - 2 * arith::word();
    assert(state::seg_ok(c, segs, top, k));
    assert(state::chunk_ok(c, d.mem.heads@, d.mem.feet@, g.base));
    assert(state::chunk_ok(c, d.mem.heads@, d.mem.feet@, rec));
    carve::lemma_top_there(d, rec);
    lemma_total_part(segs, segs.len() as int, k, c, top);
    assert forall|q: int| #[trigger] c.contains_key(q) implies q == g.base || q == rec || q
        + c[q].size < g.base || g.base + g.size <= q by {
        assert(state::chunk_ok(c, d.mem.heads@, d.mem.feet@, q));
        assert(state::housed(c, segs, q));
        let i = choose|i: int| #[trigger] state::within(c, segs, i, q);
        assert(state::seg_ok(c, segs, top, i));
        segments::lemma_limit(c, segs, top, q, i);
        if i < k {
            assert(state::segs_apart(segs[i], segs[k]));
        }
        if k < i {
            assert(state::segs_apart(segs[k], segs[i]));
        }
        if i == k && q > rec {
            assert(rec + c[rec].size <= q);
        }
    }
}

/// The words at the start of segment `k`.
#[verifier::rlimit(50)]
proof fn lemma_first_words(d: Dlmalloc, k: int)
    requires
        d.phys_wf(),
        d.segs_wf(),
        1 <= k < d.model@.segs.len(),
    ensures
        ({
            let g = d.model@.segs[k];
            let s = state::record_of(d.model@.segs, k);
            let b = d.model@.chunks[g.base];
            let head = d.mem.heads@[g.base];
            &&& s.base == g.base
            &&& s.size == g.size
            &&& s.flags == g.flags
            &&& g.base + g.size <= usize::MAX
            &&& g.size >= 10 * arith::word()
            &&& crate::sizes::round_up(g.base) == g.base
            &&& b.size == crate::chunk::size_of(head)
            &&& g.base + b.size <= usize::MAX
            &&& crate::chunk::inuse_of(head) <==> !(b.tag is Free)
        }),
{
    let c = d.model@.chunks;
    let segs = d.model@.segs;
    d.lemma_record(k);
    assert(state::seg_ok(c, segs, d.top as int, k));
    assert(state::chunk_ok(c, d.mem.heads@, d.mem.feet@, segs[k].base));
    crate::sizes::lemma_round_aligned(segs[k].base);
    crate::sizes::lemma_round_aligned(c[segs[k].base].size);
    carve::lemma_top_there(d, segs[k].base);
    if segs[k].base == d.top {
        assert(state::seg_ok(c, segs, d.top as int, 0));
        assert(state::segs_apart(segs[0], segs[k]));
    }
}

/// The words of an unused segment.
#[verifier::rlimit(50)]
proof fn lemma_unused_words(d: Dlmalloc, k: int)
    requires
        d.wf(),
        1 <= k < d.model@.segs.len(),
        d@.unused(k),
    ensures
        ({
            let segs = d.model@.segs;
            let g = segs[k];
            let s = state::record_of(segs, k);
            let b = d.model@.chunks[g.base];
            &&& s.base == g.base
            &&& s.size == g.size
            &&& s.next == segwalk::record_addr(segs, k + 1)
            &&& d.model@.chunks.contains_key(g.base)
            &&& b.tag is Free
            &&& b.size == crate::chunk::size_of(d.mem.heads@[g.base])
            &&& g.size <= d.footprint
            &&& segs[k - 1].at == SEGMENT_ADDR <==> k == 1
        }),
{
    let segs = d.model@.segs;
    assert(segs[k - 1].at == SEGMENT_ADDR <==> k == 1) by {
        d.lemma_record(k - 1);
    }
    assert(segs[k].size <= d.footprint) by {
        lemma_total_part(segs, segs.len() as int, k, d.model@.chunks, d.top as int);
    }
    d.lemma_record(k);
    lemma_first_words(d, k);
    assert(state::seg_ok(d.model@.chunks, segs, d.top as int, k));
}

/// A segment is no larger than all together.
pub proof fn lemma_total_part(segs: Seq<Seg>, n: int, k: int, c: Map<int, Block>, top: int)
    requires
        state::segs_ok(c, segs, top),
        0 <= n <= segs.len(),
        0 <= k < segs.len(),
    ensures
        k < n ==> segs[k].size <= state::total(segs, n),
        0 <= state::total(segs, n),
    decreases n,
{
    if n > 0 {
        lemma_total_part(segs, n - 1, k, c, top);
        assert(state::seg_ok(c, segs, top, n - 1));
    }
}

/// The bytes of the segments without segment `k`.
proof fn lemma_total_remove(segs: Seq<Seg>, k: int, n: int)
    requires
        0 <= k < segs.len(),
        0 <= n < segs.len(),
    ensures
        state::total(segs.remove(k), n) == if n <= k {
            state::total(segs, n)
        } else {
            state::total(segs, n + 1) - segs[k].size
        },
    decreases n,
{
    if n > 0 {
        lemma_total_remove(segs, k, n - 1);
        assert(segs.remove(k)[n - 1] == segs[if n - 1 < k { n - 1 } else { n }]);
        assert(state::total(segs, n + 1) == state::total(segs, n) + segs[n].size);
        assert(state::total(segs, n) == state::total(segs, n - 1) + segs[n - 1].size);
    }
}

/// An unused segment, whose free chunk is in no free list, is gone.
#[verifier::rlimit(50)]
proof fn lemma_dropped(o: Dlmalloc, d: Dlmalloc, k: int)
    requires
        1 <= k < o.model@.segs.len(),
        o.wf_but(Set::empty().insert(o.model@.segs[k].base)),
        o.dv != o.model@.segs[k].base,
        o@.unused(k),
        d.same_bins(&o),
        d.mem.heads == o.mem.heads,
        d.mem.feet == o.mem.feet,
        d.dv == o.dv,
        d.dvsize == o.dvsize,
        d.top == o.top,
        d.topsize == o.topsize,
        d.least_addr == o.least_addr,
        d.max_footprint == o.max_footprint,
        d.footprint == o.footprint - o.model@.segs[k].size,
        d.model@.segs == o.model@.segs.remove(k),
        d.model@.chunks == o.model@.chunks.remove(o.model@.segs[k].base).remove(
            o.model@.segs[k].at - 2 * arith::word(),
        ),
        ({
            let next = segwalk::record_addr(o.model@.segs, k + 1) as usize;
            if k == 1 {
                &&& d.seg == (Segment { next, ..o.seg })
                &&& d.mem.records == o.mem.records
            } else {
                let at = o.model@.segs[k - 1].at;
                &&& d.seg == o.seg
                &&& d.mem.records@ == o.mem.records@.insert(
                    at,
                    Segment { next, ..o.mem.records@[at] },
                )
            }
        }),
    ensures
        d.wf(),
{
    let e = Set::<int>::empty().insert(o.model@.segs[k].base);
    let c = o.model@.chunks;
    let c2 = d.model@.chunks;
    let segs = o.model@.segs;
    let g = segs[k];
    let rec = g.at - 2 * arith::word();
    let top = o.top as int;
    lemma_unused(o, e, k);
    carve::lemma_top_there(o, rec);
    assert forall|q: int| #[trigger] c.contains_key(q) implies c[q].size > 0 by {
        assert(state::chunk_ok(c, o.mem.heads@, o.mem.feet@, q));
    }
    assert(d.bins_wf()) by {
        d.lemma_bins_kept(&o);
    }
    assert(d.phys_wf()) by {
        lemma_dropped_chunks(c, o.mem.heads@, o.mem.feet@, g.base, rec, g.base + g.size);
        assert(d.dv != 0 ==> c.contains_key(d.dv as int));
    }
    assert(state::segs_ok(c2, segs.remove(k), top)) by {
        lemma_dropped_segs(c, segs, top, k);
    }
    assert(d.segs_wf()) by {
        lemma_dropped_records(o, d, k);
        lemma_dropped_marks(segs, d.mem.heads@, k);
        lemma_total_remove(segs, k, segs.len() - 1);
        lemma_dropped_least(segs, d.least_addr as int, k);
    }
    assert(d.binned(Set::empty())) by {
        lemma_dropped_binned(o@, e, g.base, rec);
    }
}

/// The least address of the segments without segment `k`.
proof fn lemma_dropped_least(segs: Seq<Seg>, least: int, k: int)
    requires
        0 <= k < segs.len(),
        forall|i: int| 0 <= i < segs.len() ==> least <= (#[trigger] segs[i]).base,
    ensures
        forall|i: int|
            0 <= i < segs.len() - 1 ==> least <= (#[trigger] segs.remove(k)[i]).base,
{
    assert forall|i: int| 0 <= i < segs.len() - 1 implies least <= (#[trigger] segs.remove(
        k,
    )[i]).base by {
        let j = if i < k { i } else { i + 1 };
        assert(segs.remove(k)[i] == segs[j]);
    }
}

/// The end marks of the segments without segment `k`.
proof fn lemma_dropped_marks(segs: Seq<Seg>, heads: Map<int, usize>, k: int)
    requires
        state::marks_ok(segs, heads),
        1 <= k < segs.len(),
    ensures
        state::marks_ok(segs.remove(k), heads),
{
    let segs2 = segs.remove(k);
    assert forall|i: int| #![trigger segs2[i]] 0 <= i < segs2.len() implies heads[state::limit(
        segs2,
        i,
    )] == if i == 0 {
        10 * arith::word()
    } else {
        3 + arith::word()
    } by {
        let j = if i < k { i } else { i + 1 };
        assert(segs2[i] == segs[j]);
        assert(state::limit(segs2, i) == state::limit(segs, j));
    }
}

/// The free lists hold no chunk of an unused segment whose free chunk is loose.
proof fn lemma_dropped_binned(h: Heap, loose: Set<int>, p: int, rec: int)
    requires
        state::binned(h.small, h.large, h.chunks, h.dv, loose),
        loose == Set::<int>::empty().insert(p),
        h.chunks[rec].tag is Record,
    ensures
        state::binned(h.small, h.large, h.chunks.remove(p).remove(rec), h.dv, Set::empty()),
{
    let c = h.chunks;
    let c2 = c.remove(p).remove(rec);
    assert forall|t: int, q: int| #[trigger] state::in_bin(h.small, h.large, t, q) implies {
        &&& c2.contains_key(q)
        &&& c2[q] == (Block { size: t, tag: Tag::Free })
        &&& q != h.dv
    } by {
        assert(c.contains_key(q));
    }
    assert forall|q: int| #[trigger]
        c2.contains_key(q) && c2[q].tag is Free && q != h.dv implies state::in_bin(
        h.small,
        h.large,
        c2[q].size,
        q,
    ) by {
        assert(c.contains_key(q));
    }
}

/// Segment records have addresses of their own.
proof fn lemma_at_apart(d: Dlmalloc, i: int, j: int)
    requires
        d.phys_wf(),
        d.segs_wf(),
        1 <= i < d.model@.segs.len(),
        1 <= j < d.model@.segs.len(),
        i != j,
    ensures
        d.model@.segs[i].at != d.model@.segs[j].at,
{
    let segs = d.model@.segs;
    d.lemma_record(i);
    d.lemma_record(j);
    if i < j {
        assert(state::segs_apart(segs[i], segs[j]));
    } else {
        assert(state::segs_apart(segs[j], segs[i]));
    }
}

/// The chunks without the two of an unused segment.
proof fn lemma_dropped_chunks(
    c: Map<int, Block>,
    heads: Map<int, usize>,
    feet: Map<int, usize>,
    p: int,
    rec: int,
    end: int,
)
    requires
        state::chunks_ok(c, heads, feet),
        c.contains_key(p),
        c[p].tag is Free,
        p + c[p].size == rec,
        forall|q: int| #[trigger]
            c.contains_key(q) ==> q == p || q == rec || q + c[q].size < p || end <= q,
        c.contains_key(rec),
        c[rec].tag is Record,
        rec + c[rec].size < end,
    ensures
        state::chunks_ok(c.remove(p).remove(rec), heads, feet),
{
    let c2 = c.remove(p).remove(rec);
    assert forall|q: int| c2.contains_key(q) implies #[trigger] state::chunk_ok(
        c2,
        heads,
        feet,
        q,
    ) by {
        assert(c.contains_key(q));
        assert(state::chunk_ok(c, heads, feet, q));
        assert(state::chunk_ok(c, heads, feet, p));
        let n = q + c[q].size;
        if c[q].tag is Used || c[q].tag is Free {
            assert(n != p && n != rec);
            assert(c2.contains_key(n));
        }
        if state::prior_free(c, feet, q) {
            let f = q - feet[q];
            assert(c.contains_key(f));
            assert(state::prior_free(c2, feet, q));
        }
    }
}

/// The segments without an unused one.
proof fn lemma_dropped_segs(c: Map<int, Block>, segs: Seq<Seg>, top: int, k: int)
    requires
        state::segs_ok(c, segs, top),
        1 <= k < segs.len(),
        c.contains_key(top),
        c[top].tag is Top,
        ({
            let g = segs[k];
            let rec = g.at - 2 * arith::word();
            &&& g.base != top
            &&& c[g.base].tag is Free
            &&& forall|q: int| #[trigger]
                c.contains_key(q) ==> q == g.base || q == rec || q + c[q].size < g.base || g.base
                    + g.size <= q
        }),
        forall|q: int| #[trigger] c.contains_key(q) ==> c[q].size > 0,
    ensures
        state::segs_ok(
            c.remove(segs[k].base).remove(segs[k].at - 2 * arith::word()),
            segs.remove(k),
            top,
        ),
{
    let g = segs[k];
    let rec = g.at - 2 * arith::word();
    let c2 = c.remove(g.base).remove(rec);
    let segs2 = segs.remove(k);
    assert(state::seg_ok(c, segs, top, k));
    assert forall|i: int| 0 <= i < segs2.len() implies #[trigger] state::seg_ok(
        c2,
        segs2,
        top,
        i,
    ) by {
        let j = if i < k { i } else { i + 1 };
        assert(segs2[i] == segs[j]);
        assert(state::seg_ok(c, segs, top, j));
        if j < k {
            assert(state::segs_apart(segs[j], segs[k]));
        } else {
            assert(state::segs_apart(segs[k], segs[j]));
        }
        if j > 0 {
            let r = segs[j].at - 2 * arith::word();
            assert(state::within(c, segs, j, r));
            assert(state::within(c2, segs2, i, r));
        } else {
            assert(state::within(c2, segs2, 0, top));
        }
    }
    assert forall|i: int, j: int| 0 <= i < j < segs2.len() implies state::segs_apart(
        #[trigger] segs2[i],
        #[trigger] segs2[j],
    ) by {
        let i2 = if i < k { i } else { i + 1 };
        let j2 = if j < k { j } else { j + 1 };
        assert(segs2[i] == segs[i2] && segs2[j] == segs[j2]);
        assert(state::segs_apart(segs[i2], segs[j2]));
    }
    assert forall|p: int| c2.contains_key(p) implies #[trigger] state::housed(c2, segs2, p) by {
        assert(state::housed(c, segs, p));
        let j = choose|j: int| #[trigger] state::within(c, segs, j, p);
        assert(state::seg_ok(c, segs, top, j));
        segments::lemma_limit(c, segs, top, p, j);
        assert(j != k);
        let i = if j < k { j } else { j - 1 };
        assert(segs2[i] == segs[j]);
        assert(state::within(c2, segs2, i, p));
    }
    assert forall|p: int| #[trigger] c2.contains_key(p) && c2[p].tag is Record implies exists|i: int|
        1 <= i < segs2.len() && #[trigger] segs2[i].at == p + 2 * arith::word() by {
        assert(c.contains_key(p));
        let j = choose|j: int| 1 <= j < segs.len() && #[trigger] segs[j].at == p + 2 * arith::word();
        let i = if j < k { j } else { j - 1 };
        assert(segs2[i] == segs[j]);
    }
}

/// The records without that of segment `k`.
#[verifier::rlimit(50)]
proof fn lemma_dropped_records(o: Dlmalloc, d: Dlmalloc, k: int)
    requires
        o.phys_wf(),
        o.segs_wf(),
        1 <= k < o.model@.segs.len(),
        d.model@.segs == o.model@.segs.remove(k),
        ({
            let next = segwalk::record_addr(o.model@.segs, k + 1) as usize;
            if k == 1 {
                &&& d.seg == (Segment { next, ..o.seg })
                &&& d.mem.records == o.mem.records
            } else {
                let at = o.model@.segs[k - 1].at;
                &&& d.seg == o.seg
                &&& d.mem.records@ == o.mem.records@.insert(
                    at,
                    Segment { next, ..o.mem.records@[at] },
                )
            }
        }),
    ensures
        d.records_wf(),
{
    let segs = o.model@.segs;
    let segs2 = d.model@.segs;
    assert forall|i: int| 1 <= i < segs2.len() implies d.mem.records@[#[trigger] segs2[i].at]
        == state::record_of(segs2, i) by {
        let j = if i < k { i } else { i + 1 };
        assert(segs2[i] == segs[j]);
        assert(o.mem.records@[segs[j].at] == state::record_of(segs, j));
        if i + 1 < segs2.len() {
            assert(segs2[i + 1] == segs[if i + 1 < k { i + 1 } else { i + 2 }]);
        }
        if k > 1 && j != k - 1 {
            lemma_at_apart(o, j, k - 1);
        }
    }
    if segs2.len() > 1 {
        assert(segs2[1] == segs[if 1 < k { 1 } else { 2int }]);
    }
    assert(segs2[0] == segs[0]);
}

/// No client holds memory of a segment that is gone, nor the record that named it.
proof fn lemma_dropped_words(o: Dlmalloc, o2: Dlmalloc, d: Dlmalloc, k: int)
    requires
        o.wf(),
        1 <= k < o.model@.segs.len(),
        o@.unused(k),
        o2.model@.chunks == o.model@.chunks,
        d.model@.chunks == o.model@.chunks.remove(o.model@.segs[k].base).remove(
            o.model@.segs[k].at - 2 * arith::word(),
        ),
        d.mem == (Memory { records: d.mem.records, ..o2.mem }),
        forall|y: int|
            k == 1 || y != o.model@.segs[k - 1].at ==> #[trigger] d.mem.records@[y]
                == o2.mem.records@[y],
    ensures
        d.keeps(&o2),
{
    let c = o.model@.chunks;
    assert(state::seg_ok(c, o.model@.segs, o.top as int, k));
    if k > 1 {
        let rec = o.model@.segs[k - 1].at - 2 * arith::word();
        let end = rec + 6 * arith::word();
        crate::grow::lemma_record_spared(o, k - 1);
        words::lemma_rewritten(o2, d, rec, end, rec, end, 0);
    } else {
        assert forall|q: int| #[trigger] c.contains_key(q) implies 0 <= q by {
            assert(state::chunk_ok(c, o.mem.heads@, o.mem.feet@, q));
        }
        words::lemma_rewritten(o2, d, 0, 0, 0, 0, 0);
    }
}

impl Dlmalloc {
    /// Takes the free chunk `p` out of its free list, or gives it up as the designated victim.
    fn unlist(&mut self, p: usize, psize: usize)
        requires
            old(self).wf(),
            old(self).model@.chunks.contains_key(p as int),
            old(self).model@.chunks[p as int] == (Block { size: psize as int, tag: Tag::Free }),
        ensures
            final(self).wf_but(Set::empty().insert(p as int)),
            final(self)@ == old(self)@.unlist(psize as int, p as int),
            final(self).dv != p,
            final(self).seg == old(self).seg,
            final(self).mem.records == old(self).mem.records,
            final(self).keeps(old(self)),
    {
        let ghost e = Set::<int>::empty();
        proof {
            crate::free::lemma_no_zero(*self);
            words::lemma_idle(*self, 0);
        }
        if p == self.dv {
            proof {
                freelists::lemma_undesignated(self@, e);
            }
            self.dv = 0;
            self.dvsize = 0;
        } else {
            self.unlink_chunk(p, psize, Ghost(e));
        }
    }

    /// Whether the segment `s`, which is not the newest, came from the system and holds
    /// nothing but a free chunk and its own record.
    #[verifier::rlimit(50)]
    fn segment_unused(&self, s: &Segment, Ghost(k): Ghost<int>) -> (r: bool)
        requires
            self.wf(),
            1 <= k < self@.segs.len(),
            *s == state::record_of(self@.segs, k),
        ensures
            r == self@.unused(k),
    {
        proof {
            lemma_first_words(*self, k);
        }
        if Segment::is_extern(s) {
            return false;
        }
        let p: usize = self.align_as_chunk(s.base);
        let psize: usize = Chunk::size(&self.mem, p);
        let chunk_top: usize = Chunk::plus_offset(p, psize);
        let top: usize = s.base + (s.size - self.top_foot_size());
        !Chunk::inuse(&self.mem, p) && chunk_top >= top
    }

    /// Removes the unused segment with its record at `sp`, behind that at `pred`.
    #[verifier::rlimit(50)]
    fn drop_segment(&mut self, pred: usize, s: &Segment, Ghost(k): Ghost<int>)
        requires
            old(self).wf(),
            1 <= k < old(self)@.segs.len(),
            old(self)@.unused(k),
            pred == old(self)@.segs[k - 1].at,
            *s == state::record_of(old(self)@.segs, k),
        ensures
            final(self).wf(),
            final(self)@ == old(self)@.drop_seg(k),
            final(self).keeps(old(self)),
    {
        let ghost o = *self;
        proof {
            lemma_unused_words(o, k);
        }
        let p: usize = s.base;
        let psize: usize = Chunk::size(&self.mem, p);
        self.unlist(p, psize);
        let ghost o2 = *self;
        self.footprint = self.footprint - s.size;
        let before: Segment = self.segment_at(pred);
        self.set_segment(
            pred,
            Segment { base: before.base, size: before.size, next: s.next, flags: before.flags },
        );
        proof {
            let h = o@.drop_seg(k);
            self.model@ = Model { chunks: h.chunks, segs: h.segs, ..self.model@ };
            lemma_dropped(o2, *self, k);
            lemma_dropped_words(o, o2, *self, k);
            words::lemma_kept_on(o, o2, *self, 0, 0);
        }
    }

    /// Puts the free chunk of the unused segment `s` into the free list for its size.
    fn rebin_segment(&mut self, s: &Segment, Ghost(k): Ghost<int>)
        requires
            old(self).wf(),
            1 <= k < old(self)@.segs.len(),
            old(self)@.unused(k),
            *s == state::record_of(old(self)@.segs, k),
        ensures
            final(self).wf(),
            final(self)@ == old(self)@.rebin(k),
            final(self).seg == old(self).seg,
            final(self).mem.records == old(self).mem.records,
            final(self).keeps(old(self)),
    {
        let ghost o = *self;
        let ghost e = Set::<int>::empty();
        proof {
            lemma_unused_words(o, k);
        }
        let p: usize = s.base;
        let psize: usize = Chunk::size(&self.mem, p);
        self.unlist(p, psize);
        let ghost o2 = *self;
        assert(e.insert(p as int).remove(p as int) =~= e);
        self.insert_chunk(p, psize, Ghost(e.insert(p as int)));
        proof {
            words::lemma_kept_on(o, o2, *self, 0, 0);
        }
    }

    /// What segment `k` is, and whether it is unused.
    fn visit(&self, sp: usize, Ghost(k): Ghost<int>) -> (r: (Segment, bool))
        requires
            self.wf(),
            1 <= k < self@.segs.len(),
            sp == self@.segs[k].at,
        ensures
            r.0 == state::record_of(self@.segs, k),
            r.0.base == self@.segs[k].base,
            r.0.size == self@.segs[k].size,
            r.0.flags == self@.segs[k].flags,
            r.0.next == segwalk::record_addr(self@.segs, k + 1),
            r.1 == self@.unused(k),
    {
        proof {
            self.lemma_record(k);
        }
        let s: Segment = self.segment_at(sp);
        (s, self.segment_unused(&s, Ghost(k)))
    }

    /// Carries out what the system has replied for segment `k`, whose record is at `sp`, behind
    /// that at `pred`. Gives back the record, and whether the segment is gone.
    fn release_one(&mut self, pred: usize, sp: usize, reply: Reply, Ghost(k): Ghost<int>) -> (r: (
        Segment,
        bool,
    ))
        requires
            old(self).wf(),
            1 <= k < old(self)@.segs.len(),
            sp == old(self)@.segs[k].at,
            pred == old(self)@.segs[k - 1].at,
        ensures
            final(self).wf(),
            r.0.size == old(self)@.segs[k].size,
            r.0.next == segwalk::record_addr(old(self)@.segs, k + 1),
            r.1 == (reply is Freed && old(self)@.unused(k)),
            final(self)@ == if reply is Kept || !old(self)@.unused(k) {
                old(self)@
            } else if reply is Failed {
                old(self)@.rebin(k)
            } else {
                old(self)@.drop_seg(k)
            },
            final(self).keeps(old(self)),
    {
        proof {
            words::lemma_idle(*self, 0);
        }
        let (s, unused) = self.visit(sp, Ghost(k));
        if unused && reply == Reply::Freed {
            self.drop_segment(pred, &s, Ghost(k));
            return (s, true);
        }
        if unused && reply == Reply::Failed {
            self.rebin_segment(&s, Ghost(k));
        }
        (s, false)
    }

    /// Sets how many large chunks may be freed before unused segments are looked for again,
    /// after `nsegs` segments have been looked at.
    fn reset_checks(&mut self, nsegs: usize)
        requires
            old(self).wf(),
        ensures
            final(self).wf(),
            final(self)@ == (Heap {
                release_checks: if nsegs > MAX_RELEASE_CHECK_RATE {
                    nsegs as int
                } else {
                    MAX_RELEASE_CHECK_RATE as int
                },
                ..old(self)@
            }),
            final(self).keeps(old(self)),
    {
        proof {
            words::lemma_idle(*self, 0);
        }
        self.release_checks = if nsegs > MAX_RELEASE_CHECK_RATE {
            nsegs
        } else {
            MAX_RELEASE_CHECK_RATE
        };
    }

    /// Carries out what the system has replied for the segments behind the newest, in their
    /// order. Gives back how many bytes it has taken, and how many segments there were.
    #[verifier::rlimit(50)]
    fn release_all(&mut self, replies: &Vec<Reply>) -> (r: (usize, usize))
        requires
            old(self).wf(),
        ensures
            final(self).wf(),
            (final(self)@, r.0 as int) == old(self)@.release_from(1, replies@),
            r.0 + final(self)@.footprint == old(self)@.footprint,
            r.1 == if old(self)@.segs.len() == 0 {
                0
            } else {
                old(self)@.segs.len() - 1
            },
            final(self).keeps(old(self)),
    {
        let ghost h0 = self@;
        let ghost rs = replies@;
        let mut released: usize = 0;
        let mut nsegs: usize = 0;
        let mut i: usize = 0;
        let mut pred: usize = SEGMENT_ADDR;
        let mut sp: usize = self.seg.next;
        let ghost mut k = 1int;
        proof {
            lemma_first_record(*self);
            words::lemma_idle(*self, 0);
            assert(rs.skip(0) =~= rs);
        }
        while sp != 0
            invariant
                self.wf(),
                self.keeps(old(self)),
                rs == replies@,
                1 <= k,
                h0.segs.len() <= h0.footprint <= usize::MAX,
                if h0.segs.len() == 0 {
                    sp == 0 && k == 1 && nsegs == 0 && self@.segs.len() == 0
                } else {
                    &&& k <= self@.segs.len()
                    &&& pred == self@.segs[k - 1].at
                    &&& nsegs + self@.segs.len() - k + 1 == h0.segs.len()
                },
                sp == segwalk::record_addr(self@.segs, k),
                i <= rs.len(),
                released + self@.footprint == h0.footprint,
                ({
                    let (h, r) = self@.release_from(k, rs.skip(i as int));
                    h0.release_from(1, rs) == (h, r + released)
                }),
            decreases self@.segs.len() - k,
        {
            let ghost h = self@;
            let ghost d = *self;
            let reply: Reply = if i < replies.len() {
                replies[i]
            } else {
                Reply::Kept
            };
            let (s, gone) = self.release_one(pred, sp, reply, Ghost(k));
            proof {
                lemma_release_step(h, self@, k, rs, i as int, reply);
                words::lemma_kept_on(*old(self), d, *self, 0, 0);
            }
            nsegs = nsegs + 1;
            if i < replies.len() {
                i = i + 1;
            }
            if gone {
                released = released + s.size;
            } else {
                pred = sp;
                proof {
                    k = k + 1;
                }
            }
            sp = s.next;
        }
        proof {
            lemma_last_record(*self, k);
        }
        (released, nsegs)
    }

    /// Carries out what the system has replied for the segments behind the newest, in their
    /// order: removes those that it has taken, and gives back how many bytes that were.
    pub fn release_unused_segments(&mut self, replies: &Vec<Reply>) -> (r: usize)
        requires
            old(self).wf(),
        ensures
            final(self).wf(),
            (final(self)@, r as int) == old(self)@.release(replies@),
            r + final(self)@.footprint == old(self)@.footprint,
            final(self).keeps(old(self)),
    {
        let (released, nsegs) = self.release_all(replies);
        let ghost d = *self;
        self.reset_checks(nsegs);
        proof {
            words::lemma_kept_on(*old(self), d, *self, 0, 0);
        }
        released
    }

    /// The segments behind the newest, in their order, and whether each is unused.
    pub fn release_plan(&self) -> (r: Vec<(Segment, bool)>)
        requires
            self.wf(),
        ensures
            r@.len() + 1 == self@.segs.len() || (r@.len() == 0 && self@.segs.len() == 0),
            forall|i: int|
                #![trigger r@[i]]
                0 <= i < r@.len() ==> {
                    &&& r@[i].0 == state::record_of(self@.segs, i + 1)
                    &&& r@[i].0.base == self@.segs[i + 1].base
                    &&& r@[i].0.size == self@.segs[i + 1].size
                    &&& r@[i].0.flags == self@.segs[i + 1].flags
                    &&& r@[i].1 == self@.unused(i + 1)
                },
    {
        let mut r: Vec<(Segment, bool)> = Vec::new();
        let mut sp: usize = self.seg.next;
        proof {
            if self@.segs.len() > 0 {
                self.lemma_record(0);
            }
        }
        while sp != 0
            invariant
                self.wf(),
                self@.segs.len() == 0 ==> sp == 0 && r@.len() == 0,
                self@.segs.len() > 0 ==> r@.len() + 1 <= self@.segs.len(),
                sp == segwalk::record_addr(self@.segs, r@.len() as int + 1),
                forall|i: int|
                    #![trigger r@[i]]
                    0 <= i < r@.len() ==> {
                        &&& r@[i].0 == state::record_of(self@.segs, i + 1)
                        &&& r@[i].0.base == self@.segs[i + 1].base
                        &&& r@[i].0.size == self@.segs[i + 1].size
                        &&& r@[i].0.flags == self@.segs[i + 1].flags
                        &&& r@[i].1 == self@.unused(i + 1)
                    },
            decreases self@.segs.len() - r@.len(),
        {
            let ghost k = r@.len() as int + 1;
            let (s, unused) = self.visit(sp, Ghost(k));
            sp = s.next;
            r.push((s, unused));
        }
        proof {
            if r@.len() + 1 < self@.segs.len() {
                self.lemma_record(r@.len() as int + 1);
            }
        }
        r
    }
}

/// What is left to do after the reply for one segment.
proof fn lemma_release_step(h: Heap, g: Heap, k: int, rs: Seq<Reply>, i: int, reply: Reply)
    requires
        1 <= k < h.segs.len(),
        0 <= i <= rs.len(),
        reply == if i < rs.len() {
            rs[i]
        } else {
            Reply::Kept
        },
        g == if reply is Kept || !h.unused(k) {
            h
        } else if reply is Failed {
            h.rebin(k)
        } else {
            h.drop_seg(k)
        },
    ensures
        ({
            let rest = rs.skip(
                if i < rs.len() {
                    i + 1
                } else {
                    i
                },
            );
            let before = h.release_from(k, rs.skip(i));
            if reply is Freed && h.unused(k) {
                let after = g.release_from(k, rest);
                &&& before == (after.0, after.1 + h.segs[k].size)
                &&& g.segs.len() == h.segs.len() - 1
                &&& g.segs[k - 1] == h.segs[k - 1]
                &&& segwalk::record_addr(g.segs, k) == segwalk::record_addr(h.segs, k + 1)
                &&& g.footprint == h.footprint - h.segs[k].size
            } else {
                &&& before == g.release_from(k + 1, rest)
                &&& g.segs == h.segs
                &&& g.footprint == h.footprint
            }
        }),
{
    let rest = rs.skip(i);
    if i < rs.len() {
        assert(rest[0] == reply);
        assert(rest.drop_first() =~= rs.skip(i + 1));
    } else {
        assert(rest.len() == 0);
    }
}

/// Behind the last record there is none.
proof fn lemma_last_record(d: Dlmalloc, k: int)
    requires
        d.phys_wf(),
        d.segs_wf(),
        0 <= k,
        segwalk::record_addr(d.model@.segs, k) == 0,
    ensures
        k >= d.model@.segs.len(),
{
    if k < d.model@.segs.len() {
        d.lemma_record(k);
    }
}

/// Where the records start, and that there are not more segments than bytes.
proof fn lemma_first_record(d: Dlmalloc)
    requires
        d.phys_wf(),
        d.segs_wf(),
    ensures
        d.model@.segs.len() <= d.footprint,
        d.seg.next == segwalk::record_addr(d.model@.segs, 1),
        d.model@.segs.len() > 0 ==> d.model@.segs[0].at == SEGMENT_ADDR,
{
    if d.model@.segs.len() > 0 {
        d.lemma_record(0);
    }
    lemma_total_count(d.model@.chunks, d.model@.segs, d.top as int, d.model@.segs.len() as int);
}

proof fn lemma_total_count(c: Map<int, Block>, segs: Seq<Seg>, top: int, n: int)
    requires
        state::segs_ok(c, segs, top),
        0 <= n <= segs.len(),
    ensures
        n <= state::total(segs, n),
    decreases n,
{
    if n > 0 {
        lemma_total_count(c, segs, top, n - 1);
        assert(state::seg_ok(c, segs, top, n - 1));
    }
}

} // verus!
