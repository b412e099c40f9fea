//! Giving the end of the top chunk back to the system.
use vstd::prelude::*;
use crate::arith;
use crate::grow::{DEFAULT_GRANULARITY, DEFAULT_TRIM_THRESHOLD};
use crate::malloc;
use crate::memory::{Memory, Segment};
use crate::release::Reply;
use crate::segments;
use crate::segwalk;
use crate::sizes;
use crate::state;
use crate::state::{Block, Dlmalloc, Heap, Model, Seg, Tag};
use crate::words;
use crate::totals;

verus! {

impl Heap {
    /// Memory is looked for that can be given back while `pad` bytes stay free at the top.
    pub open spec fn trims(self, pad: int) -> bool {
        pad < malloc::max_request() && self.top != 0
    }

    /// The end of the top chunk can be given back, if the system takes parts of segments.
    pub open spec fn can_trim(self, pad: int) -> bool {
        &&& self.trims(pad)
        &&& self.topsize > pad + 10 * arith::word()
        &&& self.segs[0].flags % 2 == 0
    }

    /// How much of the end of the top chunk can be given back: all but `pad` bytes and the room
    /// for a record, in whole units.
    pub open spec fn extra(self, pad: int) -> int {
        ((self.topsize - pad - 10 * arith::word() + 65535) / 65536 - 1) * 65536
    }

    /// The last `extra` bytes of the newest segment are gone.
    pub open spec fn shrink(self, extra: int) -> Heap {
        Heap {
            chunks: self.chunks.insert(
                self.top,
                Block { size: self.topsize - extra, tag: Tag::Top },
            ),
            segs: self.segs.update(0, Seg { size: self.segs[0].size - extra, ..self.segs[0] }),
            topsize: self.topsize - extra,
            footprint: self.footprint - extra,
            trim_check: DEFAULT_TRIM_THRESHOLD as int,
            ..self
        }
    }

    /// What is left after the system has been offered the end of the top chunk and the unused
    /// segments, and whether it has taken any memory. If it has not, the top chunk is not
    /// offered again.
    pub open spec fn trim(self, pad: int, trimmed: bool, replies: Seq<Reply>) -> (Heap, bool) {
        if !self.trims(pad) {
            (self, false)
        } else {
            let extra = if trimmed && self.can_trim(pad) {
                self.extra(pad)
            } else {
                0
            };
            let h = if extra != 0 {
                self.shrink(extra)
            } else {
                self
            };
            let (g, r) = h.release(replies);
            (
                if extra + r == 0 && g.topsize > g.trim_check {
                    Heap { trim_check: usize::MAX as int, ..g }
                } else {
                    g
                },
                extra + r != 0,
            )
        }
    }
}

/// How much can be given back.
proof fn lemma_extra(d: Dlmalloc, pad: int)
    requires
        d.wf(),
        d@.can_trim(pad),
        0 <= pad,
    ensures
        ({
            let extra = d@.extra(pad);
            let g = d.model@.segs[0];
            &&& 0 <= extra < d.topsize - pad - 10 * arith::word()
            &&& extra % 65536 == 0
            &&& extra < g.size
            &&& d.model@.segs.len() > 0
            &&& g.base + g.size <= usize::MAX
            &&& d.seg == state::record_of(d.model@.segs, 0)
            &&& d.seg.base == g.base
            &&& d.seg.size == g.size
            &&& d.seg.flags == g.flags
            &&& extra <= d.footprint
            &&& d.top + d.topsize + 10 * arith::word() == g.base + g.size
            &&& sizes::round_up(d.top as int) == d.top
            &&& d.topsize % 2 == 0
        }),
{
    let c = d.model@.chunks;
    let segs = d.model@.segs;
    d.lemma_record(0);
    assert(state::seg_ok(c, segs, d.top as int, 0));
    assert(state::chunk_ok(c, d.mem.heads@, d.mem.feet@, d.top as int));
    sizes::lemma_round_aligned(d.top as int);
    sizes::lemma_round_aligned(d.topsize as int);
    crate::release::lemma_total_part(segs, segs.len() as int, 0, c, d.top as int);
}

/// No segment record lies in the newest segment.
proof fn lemma_no_link(d: Dlmalloc)
    requires
        d.phys_wf(),
        d.segs_wf(),
        d.model@.segs.len() > 0,
    ensures
        forall|i: int|
            0 <= i < d.model@.segs.len() ==> !segwalk::in_seg(
                d.model@.segs[0],
                #[trigger] d.model@.segs[i].at,
            ),
{
    let segs = d.model@.segs;
    assert(state::seg_ok(d.model@.chunks, segs, d.top as int, 0));
    assert forall|i: int| 0 <= i < segs.len() implies !segwalk::in_seg(
        segs[0],
        #[trigger] segs[i].at,
    ) by {
        d.lemma_record(i);
        if i > 0 {
            assert(state::segs_apart(segs[0], segs[i]));
        }
    }
}

/// The top chunk gets shorter.
proof fn lemma_shrunk_chunks(
    c: Map<int, Block>,
    heads: Map<int, usize>,
    heads2: Map<int, usize>,
    feet: Map<int, usize>,
    top: int,
    size: int,
)
    requires
        state::chunks_ok(c, heads, feet),
        c.contains_key(top),
        c[top].tag is Top,
        0 < size <= c[top].size,
        arith::aligned(size),
        size % 8 == 0,
        heads2 == heads.insert(top, (size + 1) as usize).insert(
            top + size,
            (10 * arith::word()) as usize,
        ),
        !c.contains_key(top + size),
    ensures
        state::chunks_ok(c.insert(top, Block { size, tag: Tag::Top }), heads2, feet),
{
    let c2 = c.insert(top, Block { size, tag: Tag::Top });
    assert(state::chunk_ok(c, heads, feet, top));
    assert forall|q: int| c2.contains_key(q) implies #[trigger] state::chunk_ok(
        c2,
        heads2,
        feet,
        q,
    ) by {
        assert(c.contains_key(q));
        assert(state::chunk_ok(c, heads, feet, q));
    }
    assert forall|p: int, q: int| #[trigger]
        c2.contains_key(p) && #[trigger] c2.contains_key(q) && p < q implies p + c2[p].size <= q by {
        assert(c.contains_key(p) && c.contains_key(q));
    }
}

/// The newest segment gets shorter, and the top chunk with it.
proof fn lemma_shrunk_segs(
    c: Map<int, Block>,
    segs: Seq<Seg>,
    top: int,
    extra: int,
)
    requires
        state::segs_ok(c, segs, top),
        segs.len() > 0,
        c.contains_key(top),
        c[top].tag is Top,
        0 <= extra < c[top].size,
        arith::aligned(extra),
        forall|q: int| #[trigger] c.contains_key(q) && c[q].tag is Top ==> q == top,
        forall|q: int| #[trigger]
            c.contains_key(q) && q != top ==> q + c[q].size <= top || top + c[top].size <= q,
        forall|q: int| #[trigger] c.contains_key(q) ==> c[q].size > 0,
    ensures
        state::segs_ok(
            c.insert(top, Block { size: c[top].size - extra, tag: Tag::Top }),
            segs.update(0, Seg { size: segs[0].size - extra, ..segs[0] }),
            top,
        ),
{
    let c2 = c.insert(top, Block { size: c[top].size - extra, tag: Tag::Top });
    let segs2 = segs.update(0, Seg { size: segs[0].size - extra, ..segs[0] });
    let n = segs.len() as int;
    assert(state::seg_ok(c, segs, top, 0));
    sizes::lemma_aligned_sub(segs[0].size, extra);
    assert forall|i: int| 0 <= i < n implies #[trigger] state::seg_ok(c2, segs2, top, i) by {
        assert(state::seg_ok(c, segs, top, i));
        if i == 0 {
            assert(state::within(c2, segs2, 0, top));
        } else {
            assert(segs2[i] == segs[i]);
            assert(state::within(c2, segs2, i, segs[i].at - 2 * arith::word()));
        }
    }
    assert forall|i: int, j: int| 0 <= i < j < n implies state::segs_apart(
        #[trigger] segs2[i],
        #[trigger] segs2[j],
    ) by {
        assert(state::segs_apart(segs[i], segs[j]));
        assert(segs2[j] == segs[j]);
        assert(state::seg_ok(c, segs, top, j));
    }
    assert forall|p: int| c2.contains_key(p) implies #[trigger] state::housed(c2, segs2, p) by {
        assert(state::housed(c, segs, p));
        let i = choose|i: int| #[trigger] state::within(c, segs, i, p);
        if p == top {
            assert(state::within(c2, segs2, 0, p));
        } else {
            assert(c.contains_key(p));
            assert(state::within(c2, segs2, i, p));
        }
    }
    assert forall|p: int| #[trigger] c2.contains_key(p) && c2[p].tag is Record implies exists|i: int|
        1 <= i < n && #[trigger] segs2[i].at == p + 2 * arith::word() by {
        assert(c.contains_key(p));
        let i = choose|i: int| 1 <= i < n && #[trigger] segs[i].at == p + 2 * arith::word();
        assert(segs2[i] == segs[i]);
    }
}

/// The newest segment and the top chunk have got shorter.
#[verifier::rlimit(50)]
proof fn lemma_shrunk(o: Dlmalloc, d: Dlmalloc, extra: int)
    requires
        o.wf(),
        o.top != 0,
        0 <= extra < o.topsize - 10 * arith::word(),
        extra % 65536 == 0,
        extra < o.model@.segs[0].size,
        d.same_bins(&o),
        d.footprint == o.footprint - extra,
        d.max_footprint == o.max_footprint,
        d.dv == o.dv,
        d.dvsize == o.dvsize,
        d.least_addr == o.least_addr,
        d.mem.feet == o.mem.feet,
        d.mem.records == o.mem.records,
        d.top == o.top,
        d.topsize == o.topsize - extra,
        d.mem.heads@ == o.mem.heads@.insert(o.top as int, (d.topsize + 1) as usize).insert(
            o.top + d.topsize,
            (10 * arith::word()) as usize,
        ),
        d.seg == (Segment { size: (o.seg.size - extra) as usize, ..o.seg }),
        d.model@.chunks == o@.shrink(extra).chunks,
        d.model@.segs == o@.shrink(extra).segs,
    ensures
        d.wf(),
{
    let c = o.model@.chunks;
    let segs = o.model@.segs;
    let segs2 = d.model@.segs;
    let top = o.top as int;
    let n = segs.len() as int;
    o.lemma_record(0);
    assert(state::seg_ok(c, segs, top, 0));
    assert(state::chunk_ok(c, o.mem.heads@, o.mem.feet@, top));
    assert forall|q: int| #[trigger] c.contains_key(q) implies c[q].size > 0 && (q != top ==> q
        + c[q].size <= top || top + c[top].size <= q) by {
        assert(state::chunk_ok(c, o.mem.heads@, o.mem.feet@, q));
    }
    assert(!c.contains_key(top + d.topsize)) by {
        if c.contains_key(top + d.topsize) {
            segments::lemma_limit(c, segs, top, top + d.topsize, 0);
        }
    }
    assert(arith::aligned(extra)) by {
        reveal(arith::aligned);
    }
    assert(d.phys_wf()) by {
        sizes::lemma_aligned_sub(o.topsize as int, extra);
        sizes::lemma_round_aligned(d.topsize as int);
        lemma_shrunk_chunks(
            c,
            o.mem.heads@,
            d.mem.heads@,
            o.mem.feet@,
            top,
            d.topsize as int,
        );
    }
    assert(d.segs_wf()) by {
        lemma_shrunk_segs(c, segs, top, extra);
        totals::lemma_total_update(segs, segs2, n, 0);
        assert(state::marks_ok(segs2, d.mem.heads@)) by {
            assert forall|i: int| #![trigger segs2[i]] 0 < i < n implies d.mem.heads@[state::limit(
                segs2,
                i,
            )] == 3 + arith::word() by {
                assert(segs2[i] == segs[i]);
                segments::lemma_limit(c, segs, top, top, i);
                assert(state::limit(segs2, i) == state::limit(segs, i));
            }
        }
        assert(d.records_wf()) by {
            assert forall|i: int| 1 <= i < n implies d.mem.records@[#[trigger] segs2[i].at]
                == state::record_of(segs2, i) by {
                assert(segs2[i] == segs[i]);
            }
        }
        assert forall|i: int| 0 <= i < n implies d.least_addr <= (#[trigger] segs2[i]).base by {
            assert(segs2[i].base == segs[i].base);
        }
    }
    assert(d.bins_wf()) by {
        assert forall|t: int, q: int| #[trigger]
            state::in_bin(o.model@.small, o.model@.large, t, q) implies d.mem.heads@[q]
            == o.mem.heads@[q] by {
            assert(c.contains_key(q));
        }
        d.lemma_bins_kept(&o);
    }
}

impl Dlmalloc {
    /// The newest segment and the size that it could be cut to, if the end of the top chunk can
    /// be given back while `pad` bytes stay free.
    pub fn trim_plan(&self, pad: usize) -> (r: Option<(Segment, usize)>)
        requires
            self.wf(),
        ensures
            match r {
                Some((s, newsize)) => {
                    &&& self@.can_trim(pad as int)
                    &&& s == state::record_of(self@.segs, 0)
                    &&& s.base == self@.segs[0].base
                    &&& s.size == self@.segs[0].size
                    &&& s.flags == self@.segs[0].flags
                    &&& newsize == s.size - self@.extra(pad as int)
                },
                None => !self@.can_trim(pad as int),
            },
    {
        if pad < self.max_request() && self.top != 0 {
            let pad2: usize = pad + self.top_foot_size();
            if self.topsize > pad2 {
                if !Segment::is_extern(&self.seg) {
                    proof {
                        self.lemma_record(0);
                        lemma_extra(*self, pad as int);
                        lemma_no_link(*self);
                    }
                    let unit: usize = DEFAULT_GRANULARITY;
                    let extra: usize = (self.topsize - pad2 - 1) / unit * unit;
                    if self.seg.size >= extra && !self.has_segment_link(&self.seg) {
                        return Some((self.seg, self.seg.size - extra));
                    }
                } else {
                    proof {
                        self.lemma_record(0);
                    }
                }
            }
        }
        None
    }

    /// Writes the words of the newest segment without its last `extra` bytes.
    fn write_shrunk(&mut self, extra: usize)
        requires
            extra <= old(self).seg.size,
            extra <= old(self).footprint,
            extra <= old(self).topsize,
            sizes::round_up(old(self).top as int) == old(self).top,
            old(self).top + old(self).topsize + 4 * arith::word() <= usize::MAX,
            (old(self).topsize - extra) % 2 == 0,
        ensures
            ({
                let o = *old(self);
                let f = *final(self);
                &&& f == (Dlmalloc {
                    seg: Segment { size: (o.seg.size - extra) as usize, ..o.seg },
                    footprint: (o.footprint - extra) as usize,
                    topsize: (o.topsize - extra) as usize,
                    trim_check: DEFAULT_TRIM_THRESHOLD,
                    mem: f.mem,
                    ..o
                })
                &&& f.mem == (Memory { heads: f.mem.heads, ..o.mem })
                &&& f.mem.heads@ == o.mem.heads@.insert(
                    o.top as int,
                    (f.topsize + 1) as usize,
                ).insert(o.top + f.topsize, (10 * arith::word()) as usize)
            }),
    {
        self.seg.size = self.seg.size - extra;
        self.footprint = self.footprint - extra;
        let top: usize = self.top;
        let topsize: usize = self.topsize - extra;
        self.init_top(top, topsize);
    }

    /// Cuts the last `extra` bytes off the newest segment and the top chunk.
    #[verifier::rlimit(50)]
    fn shrink_top(&mut self, extra: usize, Ghost(pad): Ghost<int>)
        requires
            old(self).wf(),
            0 <= pad,
            old(self)@.can_trim(pad),
            extra == old(self)@.extra(pad),
        ensures
            final(self).wf(),
            final(self)@ == old(self)@.shrink(extra as int),
            final(self).keeps(old(self)),
    {
        let ghost o = *self;
        proof {
            lemma_extra(o, pad);
        }
        self.write_shrunk(extra);
        proof {
            let h = o@.shrink(extra as int);
            self.model@ = Model { chunks: h.chunks, segs: h.segs, ..self.model@ };
            lemma_shrunk(o, *self, extra as int);
            crate::grow::lemma_newest(o);
            crate::grow::lemma_end_spared(o);
            let n = o.model@.segs[0].base + o.model@.segs[0].size;
            words::lemma_rewritten(o, *self, o.top as int, n, o.top as int, n, 0);
        }
    }

    /// Does not offer the top chunk to the system again.
    fn stop_trimming(&mut self)
        requires
            old(self).wf(),
        ensures
            final(self).wf(),
            final(self)@ == (Heap { trim_check: usize::MAX as int, ..old(self)@ }),
            final(self).keeps(old(self)),
    {
        proof {
            words::lemma_idle(*self, 0);
        }
        self.trim_check = usize::MAX;
    }

    /// Carries out that the system has taken the end of the top chunk, if `trimmed` says so, and
    /// what it has replied for the segments behind the newest. Gives back whether it has taken
    /// any memory.
    pub fn sys_trim(&mut self, pad: usize, trimmed: bool, replies: &Vec<Reply>) -> (r: bool)
        requires
            old(self).wf(),
        ensures
            final(self).wf(),
            (final(self)@, r) == old(self)@.trim(pad as int, trimmed, replies@),
            !old(self)@.trims(pad as int) ==> *final(self) == *old(self),
            final(self).keeps(old(self)),
    {
        proof {
            words::lemma_idle(*self, 0);
        }
        let mut released: usize = 0;
        if pad < self.max_request() && self.top != 0 {
            if trimmed {
                if let Some((s, newsize)) = self.trim_plan(pad) {
                    proof {
                        lemma_extra(*self, pad as int);
                    }
                    released = s.size - newsize;
                    if released != 0 {
                        self.shrink_top(released, Ghost(pad as int));
                    }
                }
            }
            let ghost d = *self;
            let more: usize = self.release_unused_segments(replies);
            let ghost d2 = *self;
            proof {
                words::lemma_kept_on(*old(self), d, d2, 0, 0);
            }
            released = released + more;
            if released == 0 && self.topsize > self.trim_check {
                self.stop_trimming();
                proof {
                    words::lemma_kept_on(*old(self), d2, *self, 0, 0);
                }
            }
        }
        released != 0
    }
}

} // verus!
