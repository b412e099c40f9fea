//! Taking memory from the system.
use vstd::prelude::*;
use crate::arith;
use crate::arith::align_up;
use crate::chunk::{Chunk, PINUSE};
use crate::memory::{Memory, Segment};
use crate::regions;
use crate::segments;
use crate::sizes;
use crate::state;
use crate::state::{Block, Dlmalloc, Heap, Model, Seg, Tag, FIRST_ADDR, SEGMENT_ADDR};
use crate::words;

verus! {

/// The system is asked for multiples of so many bytes.
pub const DEFAULT_GRANULARITY: usize = 65536;

/// A top chunk of more bytes is worth giving back.
pub const DEFAULT_TRIM_THRESHOLD: usize = 2097152;

/// How many large chunks may be freed before unused segments are looked for.
pub const MAX_RELEASE_CHECK_RATE: usize = 4095;

/// The bytes to ask the system for, so that a chunk of `nb` bytes can be cut from them.
pub open spec fn wanted(nb: int) -> int {
    (nb + 12 * arith::word() + 65535) / 65536 * 65536
}

/// Segment `g` can go on into memory of these flags.
pub open spec fn same_kind(g: Seg, flags: u32) -> bool {
    g.flags % 2 == 0 && g.flags / 2 == flags
}

/// Segment `i` starts at `x`.
pub open spec fn starts_at(segs: Seq<Seg>, i: int, x: int) -> bool {
    0 <= i < segs.len() && segs[i].base == x
}

/// The segment that starts at `x`.
pub open spec fn seg_at(segs: Seq<Seg>, x: int) -> int {
    choose|i: int| starts_at(segs, i, x)
}

impl Heap {
    /// The footprint after a region of `size` bytes has come.
    pub open spec fn book(self, size: int) -> Heap {
        Heap {
            footprint: self.footprint + size,
            max_footprint: if self.footprint + size > self.max_footprint {
                self.footprint + size
            } else {
                self.max_footprint
            },
            ..self
        }
    }

    /// The first region: all of it, but for the room at its end, is the top chunk.
    pub open spec fn start(self, base: int, size: int, flags: u32) -> Heap {
        Heap {
            chunks: self.chunks.insert(
                base,
                Block { size: size - 10 * arith::word(), tag: Tag::Top },
            ),
            segs: seq![Seg { at: SEGMENT_ADDR as int, base, size, flags }],
            top: base,
            topsize: size - 10 * arith::word(),
            trim_check: DEFAULT_TRIM_THRESHOLD as int,
            least_addr: if self.least_addr == 0 || base < self.least_addr {
                base
            } else {
                self.least_addr
            },
            release_checks: MAX_RELEASE_CHECK_RATE as int,
            ..self.book(size)
        }
    }

    /// A region behind the newest segment: it becomes part of the segment and of the top chunk.
    pub open spec fn extend(self, size: int) -> Heap {
        Heap {
            chunks: self.chunks.insert(
                self.top,
                Block { size: self.topsize + size, tag: Tag::Top },
            ),
            segs: self.segs.update(0, Seg { size: self.segs[0].size + size, ..self.segs[0] }),
            topsize: self.topsize + size,
            trim_check: DEFAULT_TRIM_THRESHOLD as int,
            ..self.book(size)
        }
    }

    /// The least address after a region at `base` has come.
    pub open spec fn lower(self, base: int) -> Heap {
        Heap {
            least_addr: if base < self.least_addr {
                base
            } else {
                self.least_addr
            },
            ..self
        }
    }

    /// A region in front of segment `j`: it becomes part of the segment, as a chunk of `nb`
    /// bytes and the rest.
    pub open spec fn reach(self, j: int, base: int, size: int, nb: int) -> Heap {
        Heap {
            chunks: self.chunks.insert(base, Block { size: nb, tag: Tag::Used }).insert(
                base + nb,
                Block { size: size - nb, tag: Tag::Used },
            ),
            segs: regions::reach_back(self.segs, j, base, size),
            ..self.book(size).lower(base)
        }
    }

    /// A region in front of segment `j`: its first `nb` bytes are handed out, and the rest is
    /// freed.
    pub open spec fn prepend(self, j: int, base: int, size: int, nb: int) -> Heap {
        let h = self.reach(j, base, size, nb);
        let g = h.absorb(base + nb, size - nb);
        if base + size == self.top || base + size == self.dv {
            g
        } else {
            g.put(h.run_size(base + nb, size - nb), base + nb)
        }
    }

    /// A region that borders on no segment: it becomes the newest segment, and the top chunk
    /// is all of it. The top chunk before it goes to the free list for its size.
    pub open spec fn add(self, base: int, size: int, flags: u32) -> Heap {
        let h = Heap {
            chunks: regions::move_top(self.chunks, self.top, self.topsize, base, size),
            segs: regions::add_front(
                self.segs,
                regions::record_chunk(self.top, self.topsize) + 2 * arith::word(),
                base,
                size,
                flags,
            ),
            top: base,
            topsize: size - 10 * arith::word(),
            trim_check: DEFAULT_TRIM_THRESHOLD as int,
            ..self.book(size).lower(base)
        };
        if self.topsize < 4 * arith::word() {
            h
        } else {
            h.put(self.topsize, self.top)
        }
    }

    /// A region at `base` borders on the end of the newest segment, which can go on into it.
    pub open spec fn extends(self, base: int, flags: u32) -> bool {
        self.segs[0].base + self.segs[0].size == base && same_kind(self.segs[0], flags)
    }

    /// A region of `size` bytes at `base` borders on the start of a segment, which can go back
    /// into it.
    pub open spec fn prepends(self, base: int, size: int, flags: u32) -> bool {
        let j = seg_at(self.segs, base + size);
        &&& self.top != 0
        &&& !self.extends(base, flags)
        &&& starts_at(self.segs, j, base + size)
        &&& same_kind(self.segs[j], flags)
    }

    /// A chunk of `nb` bytes can be looked for in a region of the system's: one that becomes the
    /// front of a segment holds it and another chunk.
    pub open spec fn can_take(self, nb: int, base: int, size: int, flags: u32) -> bool {
        &&& regions::region_ok(self.segs, base, size)
        &&& self.prepends(base, size, flags) ==> nb + 4 * arith::word() <= size
    }

    /// The first `nb` bytes of the top chunk, and their address for the client; zero, if it has
    /// no more than that.
    pub open spec fn serve_top(self, nb: int) -> (Heap, int) {
        if nb < self.topsize {
            (self.cut_top(nb), self.top + 2 * arith::word())
        } else {
            (self, 0)
        }
    }

    /// What a region of the system's does to a request for a chunk of `nb` bytes, and the
    /// address of the memory that is handed out, or zero.
    pub open spec fn grow(self, nb: int, base: int, size: int, flags: u32) -> (Heap, int) {
        if self.top == 0 {
            self.start(base, size, flags).serve_top(nb)
        } else if self.extends(base, flags) {
            self.extend(size).serve_top(nb)
        } else if self.prepends(base, size, flags) {
            (
                self.prepend(seg_at(self.segs, base + size), base, size, nb),
                base + 2 * arith::word(),
            )
        } else {
            self.add(base, size, flags).serve_top(nb)
        }
    }
}

proof fn lemma_granularity()
    ensures
        arith::is_power_of_two(65536),
{
    vstd::arithmetic::power2::lemma2_to64();
    assert(65536 == vstd::arithmetic::power2::pow2(16));
}

/// The top chunk can take up the region behind the newest segment.
#[verifier::rlimit(50)]
proof fn lemma_extend_room(d: Dlmalloc, base: int, size: int)
    requires
        d.phys_wf(),
        d.segs_wf(),
        d.top != 0,
        regions::region_ok(d.model@.segs, base, size),
        d.model@.segs[0].base + d.model@.segs[0].size == base,
    ensures
        d.footprint + size <= usize::MAX,
        d.seg.size == d.model@.segs[0].size,
        d.seg.size + size <= usize::MAX,
        sizes::round_up(d.top as int) == d.top,
        (d.topsize + size) % 2 == 0,
        d.top + d.topsize + size + 10 * arith::word() <= usize::MAX,
{
    regions::lemma_footprint(d, base, size);
    d.lemma_record(0);
    assert(state::seg_ok(d.model@.chunks, d.model@.segs, d.top as int, 0));
    assert(state::chunk_ok(d.model@.chunks, d.mem.heads@, d.mem.feet@, d.top as int));
    sizes::lemma_round_aligned(d.top as int);
    sizes::lemma_round_aligned(size);
}

/// Segment `j` can take up the region in front of it.
#[verifier::rlimit(50)]
proof fn lemma_front_room(d: Dlmalloc, base: int, size: int, j: int)
    requires
        d.phys_wf(),
        d.segs_wf(),
        regions::region_ok(d.model@.segs, base, size),
        starts_at(d.model@.segs, j, base + size),
    ensures
        d.footprint + size <= usize::MAX,
        ({
            let s = if d.model@.segs[j].at == SEGMENT_ADDR {
                d.seg
            } else {
                d.mem.records@[d.model@.segs[j].at]
            };
            let segs2 = regions::reach_back(d.model@.segs, j, base, size);
            &&& s.base == base + size
            &&& s.size + size <= usize::MAX
            &&& state::record_of(segs2, j) == (Segment {
                base: base as usize,
                size: (s.size + size) as usize,
                ..s
            })
        }),
        d.model@.segs[j].at == SEGMENT_ADDR <==> j == 0,
        base + size + 4 * arith::word() <= usize::MAX,
{
    let segs = d.model@.segs;
    regions::lemma_footprint(d, base, size);
    d.lemma_record(j);
    assert(state::seg_ok(d.model@.chunks, segs, d.top as int, j));
    let segs2 = regions::reach_back(segs, j, base, size);
    if j + 1 < segs.len() {
        assert(segs2[j + 1] == segs[j + 1]);
    }
}

impl Dlmalloc {
    /// The bytes to ask the system for, so that a chunk of `nb` bytes can be cut from them.
    pub fn sys_request(&self, nb: usize) -> (r: usize)
        requires
            nb + 12 * arith::word() + 65535 <= usize::MAX,
        ensures
            r == wanted(nb as int),
    {
        proof {
            lemma_granularity();
        }
        align_up(nb + self.top_foot_size() + self.malloc_alignment(), DEFAULT_GRANULARITY)
    }

    /// Counts a new region.
    fn book(&mut self, tsize: usize)
        requires
            old(self).footprint + tsize <= usize::MAX,
        ensures
            *final(self) == (Dlmalloc {
                footprint: (old(self).footprint + tsize) as usize,
                max_footprint: (if old(self).footprint + tsize > old(self).max_footprint {
                    old(self).footprint + tsize
                } else {
                    old(self).max_footprint as int
                }) as usize,
                ..*old(self)
            }),
    {
        self.footprint = self.footprint + tsize;
        if self.footprint > self.max_footprint {
            self.max_footprint = self.footprint;
        }
    }

    /// Makes the `size` bytes from `ptr` on the top chunk, and marks its end.
    pub(crate) fn init_top(&mut self, ptr: usize, size: usize)
        requires
            ptr + 4 * arith::word() <= usize::MAX,
            ptr + size <= usize::MAX,
            sizes::round_up(ptr as int) - ptr <= size,
        ensures
            ({
                let p = sizes::round_up(ptr as int);
                let s = ptr + size - p;
                &&& *final(self) == (Dlmalloc {
                    top: p as usize,
                    topsize: s as usize,
                    trim_check: DEFAULT_TRIM_THRESHOLD,
                    mem: final(self).mem,
                    ..*old(self)
                })
                &&& final(self).mem == (Memory { heads: final(self).mem.heads, ..old(self).mem })
                &&& final(self).mem.heads@ == old(self).mem.heads@.insert(
                    p,
                    (s - s % 2 + 1) as usize,
                ).insert(p + s, (10 * arith::word()) as usize)
            }),
    {
        let offset: usize = self.align_offset(Chunk::to_mem(ptr));
        let p: usize = Chunk::plus_offset(ptr, offset);
        let size: usize = size - offset;
        self.top = p;
        self.topsize = size;
        proof {
            crate::chunk::lemma_head_bits(size);
        }
        self.mem.heads.set(p, size | PINUSE);
        let foot: usize = self.top_foot_size();
        self.mem.heads.set(Chunk::plus_offset(p, size), foot);
        self.trim_check = DEFAULT_TRIM_THRESHOLD;
    }

    /// Makes the lists of small chunks empty.
    fn init_bins(&mut self)
        ensures
            *final(self) == (Dlmalloc { mem: final(self).mem, ..*old(self) }),
            final(self).mem == (Memory {
                nexts: final(self).mem.nexts,
                prevs: final(self).mem.prevs,
                ..old(self).mem
            }),
            forall|i: int|
                0 <= i < 32 ==> final(self).mem.nexts@[#[trigger] state::small_head(i)]
                    == state::small_head(i) && final(self).mem.prevs@[state::small_head(i)]
                    == state::small_head(i),
            forall|p: int|
                (forall|i: int| 0 <= i < 32 ==> p != #[trigger] state::small_head(i))
                    ==> #[trigger] final(self).mem.nexts@[p] == old(self).mem.nexts@[p]
                    && final(self).mem.prevs@[p] == old(self).mem.prevs@[p],
    {
        let mut i: u32 = 0;
        while i < 32
            invariant
                0 <= i <= 32,
                *self == (Dlmalloc { mem: self.mem, ..*old(self) }),
                self.mem == (Memory {
                    nexts: self.mem.nexts,
                    prevs: self.mem.prevs,
                    ..old(self).mem
                }),
                forall|k: int|
                    0 <= k < i ==> self.mem.nexts@[#[trigger] state::small_head(k)]
                        == state::small_head(k) && self.mem.prevs@[state::small_head(k)]
                        == state::small_head(k),
                forall|p: int|
                    (forall|k: int| 0 <= k < 32 ==> p != #[trigger] state::small_head(k))
                        ==> #[trigger] self.mem.nexts@[p] == old(self).mem.nexts@[p]
                        && self.mem.prevs@[p] == old(self).mem.prevs@[p],
            decreases 32 - i,
        {
            let bin: usize = self.smallbin_at(i);
            self.mem.nexts.set(bin, bin);
            self.mem.prevs.set(bin, bin);
            i = i + 1;
        }
    }

    /// Writes the words of the first segment.
    fn write_start(&mut self, tbase: usize, tsize: usize, flags: u32)
        requires
            old(self).footprint + tsize <= usize::MAX,
            arith::aligned(tbase as int),
            tbase + tsize <= usize::MAX,
            10 * arith::word() <= tsize,
            tsize % 2 == 0,
        ensures
            ({
                let o = *old(self);
                let f = *final(self);
                let t = tsize - 10 * arith::word();
                &&& f == (Dlmalloc {
                    footprint: f.footprint,
                    max_footprint: f.max_footprint,
                    least_addr: f.least_addr,
                    seg: Segment { base: tbase, size: tsize, flags, ..o.seg },
                    release_checks: MAX_RELEASE_CHECK_RATE,
                    top: tbase,
                    topsize: t as usize,
                    trim_check: DEFAULT_TRIM_THRESHOLD,
                    mem: f.mem,
                    ..o
                })
                &&& f.mem == (Memory {
                    nexts: f.mem.nexts,
                    prevs: f.mem.prevs,
                    heads: f.mem.heads,
                    ..o.mem
                })
                &&& f.mem.heads@ == o.mem.heads@.insert(tbase as int, (t + 1) as usize).insert(
                    tbase + t,
                    (10 * arith::word()) as usize,
                )
                &&& f.footprint == o.footprint + tsize
                &&& f.max_footprint == if f.footprint > o.max_footprint {
                    f.footprint
                } else {
                    o.max_footprint
                }
                &&& f.least_addr == if o.least_addr == 0 || tbase < o.least_addr {
                    tbase
                } else {
                    o.least_addr
                }
            }),
    {
        proof {
            sizes::lemma_round_aligned(tbase as int);
        }
        self.book(tsize);
        if self.least_addr == 0 || tbase < self.least_addr {
            self.least_addr = tbase;
        }
        self.seg.base = tbase;
        self.seg.size = tsize;
        self.seg.flags = flags;
        self.release_checks = MAX_RELEASE_CHECK_RATE;
        self.init_bins();
        let rest: usize = tsize - self.top_foot_size();
        self.init_top(tbase, rest);
    }

    /// Makes the first region a segment.
    #[verifier::rlimit(50)]
    fn start_region(&mut self, tbase: usize, tsize: usize, flags: u32)
        requires
            old(self).wf(),
            old(self).top == 0,
            regions::region_ok(old(self)@.segs, tbase as int, tsize as int),
        ensures
            final(self).wf(),
            final(self)@ == old(self)@.start(tbase as int, tsize as int, flags),
            final(self).keeps(old(self)),
    {
        let ghost o = *self;
        proof {
            regions::lemma_footprint(o, tbase as int, tsize as int);
            regions::lemma_nothing(o);
            sizes::lemma_round_aligned(tsize as int);
        }
        self.write_start(tbase, tsize, flags);
        proof {
            let h = o@.start(tbase as int, tsize as int, flags);
            self.model@ = Model { chunks: h.chunks, segs: h.segs, ..self.model@ };
            regions::lemma_started(o, *self, tbase as int, tsize as int, flags);
            words::lemma_none(o, *self);
        }
    }

    /// Makes the region behind the newest segment part of it.
    #[verifier::rlimit(50)]
    fn extend_top(&mut self, tbase: usize, tsize: usize)
        requires
            old(self).wf(),
            old(self).top != 0,
            regions::region_ok(old(self)@.segs, tbase as int, tsize as int),
            old(self)@.segs[0].base + old(self)@.segs[0].size == tbase,
        ensures
            final(self).wf(),
            final(self)@ == old(self)@.extend(tsize as int),
            final(self).keeps(old(self)),
    {
        let ghost o = *self;
        proof {
            lemma_extend_room(o, tbase as int, tsize as int);
        }
        self.book(tsize);
        self.seg.size = self.seg.size + tsize;
        let ptr: usize = self.top;
        let size: usize = self.topsize + tsize;
        self.init_top(ptr, size);
        proof {
            let h = o@.extend(tsize as int);
            self.model@ = Model { chunks: h.chunks, segs: h.segs, ..self.model@ };
            regions::lemma_extended(o, *self, tsize as int);
            lemma_newest(o);
            lemma_end_spared(o);
            lemma_region_spared(o, tbase as int, tsize as int);
            words::lemma_rewritten(
                o,
                *self,
                o.top as int,
                tbase as int,
                tbase as int,
                tbase + tsize,
                0,
            );
        }
    }

    /// Lowers the least address to that of a new region.
    fn lower(&mut self, tbase: usize)
        ensures
            *final(self) == (Dlmalloc {
                least_addr: if tbase < old(self).least_addr {
                    tbase
                } else {
                    old(self).least_addr
                },
                ..*old(self)
            }),
    {
        if tbase < self.least_addr {
            self.least_addr = tbase;
        }
    }

    /// Writes the words of the segment with its record at `sp` after the region in front of it
    /// has become part of it, as a chunk of `size` bytes and the rest.
    #[verifier::rlimit(50)]
    fn write_front(&mut self, sp: usize, tbase: usize, tsize: usize, size: usize) -> (r: (
        usize,
        usize,
    ))
        requires
            old(self).footprint + tsize <= usize::MAX,
            arith::aligned(tbase as int),
            arith::aligned(tsize as int),
            arith::aligned(size as int),
            size <= tsize,
            tbase + tsize + 4 * arith::word() <= usize::MAX,
            ({
                let s = if sp == SEGMENT_ADDR {
                    old(self).seg
                } else {
                    old(self).mem.records@[sp as int]
                };
                s.base == tbase + tsize && s.size + tsize <= usize::MAX
            }),
        ensures
            r.0 == tbase + size,
            r.1 == tsize - size,
            ({
                let o = *old(self);
                let f = *final(self);
                let s = if sp == SEGMENT_ADDR {
                    o.seg
                } else {
                    o.mem.records@[sp as int]
                };
                let s2 = Segment { base: tbase, size: (s.size + tsize) as usize, ..s };
                &&& f == (Dlmalloc {
                    footprint: f.footprint,
                    max_footprint: f.max_footprint,
                    least_addr: f.least_addr,
                    seg: if sp == SEGMENT_ADDR {
                        s2
                    } else {
                        o.seg
                    },
                    mem: f.mem,
                    ..o
                })
                &&& f.mem == (Memory { records: f.mem.records, heads: f.mem.heads, ..o.mem })
                &&& f.mem.heads@ == o.mem.heads@.insert(tbase as int, (size + 3) as usize).insert(
                    tbase + size,
                    (tsize - size + 3) as usize,
                )
                &&& if sp == SEGMENT_ADDR {
                    f.mem.records == o.mem.records
                } else {
                    f.mem.records@ == o.mem.records@.insert(sp as int, s2)
                }
                &&& f.footprint == o.footprint + tsize
                &&& f.max_footprint == if f.footprint > o.max_footprint {
                    f.footprint
                } else {
                    o.max_footprint
                }
                &&& f.least_addr == if tbase < o.least_addr {
                    tbase
                } else {
                    o.least_addr
                }
            }),
    {
        proof {
            sizes::lemma_round_aligned(tbase as int);
            sizes::lemma_aligned_sub(tbase as int, tsize as int);
            sizes::lemma_round_aligned(tbase + tsize);
            sizes::lemma_round_aligned(size as int);
            sizes::lemma_aligned_sub(tsize as int, size as int);
            sizes::lemma_round_aligned(tsize - size);
        }
        self.book(tsize);
        self.lower(tbase);
        let s: Segment = self.segment_at(sp);
        let oldbase: usize = s.base;
        self.set_segment(
            sp,
            Segment { base: tbase, size: s.size + tsize, next: s.next, flags: s.flags },
        );
        let p: usize = self.align_as_chunk(tbase);
        let oldfirst: usize = self.align_as_chunk(oldbase);
        let psize: usize = oldfirst - p;
        let q: usize = Chunk::plus_offset(p, size);
        let qsize: usize = psize - size;
        Chunk::set_size_and_pinuse_of_inuse_chunk(&mut self.mem, p, size);
        Chunk::set_size_and_pinuse_of_inuse_chunk(&mut self.mem, q, qsize);
        (q, qsize)
    }

    /// Makes the region in front of the segment with its record at `sp` part of it, as two
    /// chunks in use: one of `size` bytes and the rest, whose address and size it gives back.
    #[verifier::rlimit(50)]
    fn place_front(
        &mut self,
        sp: usize,
        tbase: usize,
        tsize: usize,
        size: usize,
        Ghost(j): Ghost<int>,
    ) -> (r: (usize, usize))
        requires
            old(self).wf(),
            old(self).top != 0,
            regions::region_ok(old(self)@.segs, tbase as int, tsize as int),
            starts_at(old(self)@.segs, j, tbase + tsize),
            sp == old(self)@.segs[j].at,
            4 * arith::word() <= size <= tsize - 4 * arith::word(),
            arith::aligned(size as int),
        ensures
            final(self).wf(),
            final(self)@ == old(self)@.reach(j, tbase as int, tsize as int, size as int),
            r.0 == tbase + size,
            r.1 == tsize - size,
            final(self).mem.heads@[tbase + size] == tsize - size + 3,
            final(self).keeps(old(self)),
    {
        let ghost o = *self;
        proof {
            lemma_front_room(o, tbase as int, tsize as int, j);
            assert(arith::aligned(tsize as int));
        }
        let r = self.write_front(sp, tbase, tsize, size);
        proof {
            let h = o@.reach(j, tbase as int, tsize as int, size as int);
            self.model@ = Model { chunks: h.chunks, segs: h.segs, ..self.model@ };
            regions::lemma_prepended(o, *self, j, tbase as int, tsize as int, size as int);
            lemma_region_spared(o, tbase as int, tsize as int);
            let rec = sp - 2 * arith::word();
            let end = tbase + tsize;
            if j == 0 {
                words::lemma_rewritten(o, *self, tbase as int, end, tbase as int, end, 0);
            } else {
                lemma_record_spared(o, j);
                words::lemma_rewritten(
                    o,
                    *self,
                    rec,
                    rec + 6 * arith::word(),
                    tbase as int,
                    end,
                    0,
                );
            }
        }
        r
    }

    /// Hands out the first `size` bytes of the region in front of the segment with its record
    /// at `sp`, and frees the rest.
    fn prepend_alloc(
        &mut self,
        sp: usize,
        tbase: usize,
        tsize: usize,
        size: usize,
        Ghost(j): Ghost<int>,
    ) -> (r: usize)
        requires
            old(self).wf(),
            old(self).top != 0,
            regions::region_ok(old(self)@.segs, tbase as int, tsize as int),
            starts_at(old(self)@.segs, j, tbase + tsize),
            sp == old(self)@.segs[j].at,
            4 * arith::word() <= size <= tsize - 4 * arith::word(),
            arith::aligned(size as int),
        ensures
            final(self).wf(),
            final(self)@ == old(self)@.prepend(j, tbase as int, tsize as int, size as int),
            r == tbase + 2 * arith::word(),
            final(self).keeps(old(self)),
    {
        let ghost o = *self;
        let (q, qsize) = self.place_front(sp, tbase, tsize, size, Ghost(j));
        let ghost e = Set::<int>::empty();
        let ghost d = *self;
        proof {
            crate::phys::lemma_no_prior(
                self.model@.chunks,
                self.mem.heads@,
                self.mem.feet@,
                q as int,
            );
            crate::free::lemma_no_zero(o);
            if o.model@.chunks.contains_key(q as int) {
                assert(state::chunk_ok(
                    o.model@.chunks,
                    o.mem.heads@,
                    o.mem.feet@,
                    q as int,
                ));
                regions::lemma_outside(
                    o.model@.chunks,
                    o.model@.segs,
                    o.top as int,
                    tbase as int,
                    tsize as int,
                    q as int,
                );
            }
        }
        let t: usize = self.absorb(q, qsize, Ghost(e), Ghost(q as int));
        let ghost d2 = *self;
        proof {
            words::lemma_kept_on(o, d, d2, 0, q as int);
        }
        if t != 0 {
            assert(e.insert(q as int).remove(q as int) =~= e);
            self.insert_chunk(q, t, Ghost(e.insert(q as int)));
            proof {
                words::lemma_kept_on(o, d2, *self, 0, 0);
            }
        }
        Chunk::to_mem(tbase)
    }

    /// Marks the memory from `start` to `end` as the end of a segment.
    fn put_fences(&mut self, start: usize, end: usize)
        requires
            start + 2 * arith::word() <= end,
        ensures
            *final(self) == (Dlmalloc { mem: final(self).mem, ..*old(self) }),
            final(self).mem == (Memory { heads: final(self).mem.heads, ..old(self).mem }),
            forall|q: int| #[trigger]
                final(self).mem.heads@[q] == if fenced(start as int, end as int, q) {
                    (3 + arith::word()) as usize
                } else {
                    old(self).mem.heads@[q]
                },
    {
        let w: usize = arith::word_size();
        let mut p: usize = start;
        let ghost mut k = 0int;
        loop
            invariant_except_break
                k == 0 || p + w < end,
                forall|q: int| #[trigger]
                    self.mem.heads@[q] == if fenced(start as int, end as int, q) && q < p {
                        (3 + arith::word()) as usize
                    } else {
                        old(self).mem.heads@[q]
                    },
            invariant
                w == arith::word(),
                start + 2 * w <= end,
                0 <= k,
                p == start + k * w,
                start <= p < end - w,
                *self == (Dlmalloc { mem: self.mem, ..*old(self) }),
                self.mem == (Memory { heads: self.mem.heads, ..old(self).mem }),
            ensures
                forall|q: int| #[trigger]
                    self.mem.heads@[q] == if fenced(start as int, end as int, q) {
                        (3 + arith::word()) as usize
                    } else {
                        old(self).mem.heads@[q]
                    },
            decreases end - p,
        {
            proof {
                lemma_fence_steps(start as int, end as int, p as int, k);
            }
            let nextp: usize = Chunk::plus_offset(p, w);
            self.mem.heads.set(p, Chunk::fencepost_head());
            if w < end - nextp {
                p = nextp;
                proof {
                    k = k + 1;
                    assert((k - 1) * w + w == k * w) by (nonlinear_arith);
                }
            } else {
                break;
            }
        }
    }

    /// Where the record of the newest segment goes when another becomes the newest, and where
    /// the segment ends.
    #[verifier::rlimit(50)]
    fn record_place(&self) -> (r: (usize, usize))
        requires
            self.wf(),
            self.top != 0,
        ensures
            r.0 == regions::record_chunk(self@.top, self@.topsize),
            r.1 == self@.segs[0].base + self@.segs[0].size,
    {
        proof {
            lemma_newest(*self);
            self.lemma_chain_ends();
            self.lemma_held(0, self.top as int);
        }
        let old_top: usize = self.top;
        let oldsp: usize = self.segment_holding(old_top);
        proof {
            let k = choose|k: int| #[trigger]
                self.first_holds(k, old_top as int) && self.chain(k) == oldsp;
            assert(self.holds_at(0, old_top as int));
            assert(k == 0);
            self.lemma_holder(0, old_top as int);
        }
        let s: Segment = self.segment_at(oldsp);
        let old_end: usize = Segment::top(&s);
        proof {
            sizes::lemma_round_behind(old_end as int);
            sizes::lemma_round_behind(old_end - 10 * arith::word());
        }
        let ssize: usize = self.pad_request(4 * arith::word_size());
        let back: usize = ssize + arith::word_size() * 4 + self.malloc_alignment() - 1;
        let rawsp: usize = old_end - back;
        let offset: usize = self.align_offset(Chunk::to_mem(rawsp));
        let asp: usize = rawsp + offset;
        let csp: usize = if asp < old_top + self.min_chunk_size() {
            old_top
        } else {
            asp
        };
        (csp, old_end)
    }

    /// Writes the words of a new segment in front of the others: the record of the one that
    /// was the newest goes to chunk `csp`, which lies before `old_end`.
    fn write_segment(&mut self, tbase: usize, tsize: usize, flags: u32, csp: usize, old_end: usize)
        requires
            old(self).footprint + tsize <= usize::MAX,
            arith::aligned(tbase as int),
            tbase + tsize <= usize::MAX,
            10 * arith::word() < tsize,
            arith::aligned(tsize as int),
            csp + 8 * arith::word() < old_end,
            csp > SEGMENT_ADDR,
            tbase + tsize <= csp || old_end <= tbase,
        ensures
            ({
                let o = *old(self);
                let f = *final(self);
                let at = csp + 2 * arith::word();
                &&& f == (Dlmalloc {
                    footprint: f.footprint,
                    max_footprint: f.max_footprint,
                    least_addr: f.least_addr,
                    seg: Segment { base: tbase, size: tsize, next: at as usize, flags },
                    top: tbase,
                    topsize: (tsize - 10 * arith::word()) as usize,
                    trim_check: DEFAULT_TRIM_THRESHOLD,
                    mem: f.mem,
                    ..o
                })
                &&& f.mem == (Memory { records: f.mem.records, heads: f.mem.heads, ..o.mem })
                &&& f.mem.records@ == o.mem.records@.insert(at, o.seg)
                &&& f.mem.heads@[csp as int] == 6 * arith::word() + 3
                &&& f.mem.heads@[csp + 6 * arith::word()] == 3 + arith::word()
                &&& forall|q: int| #[trigger]
                    fenced(csp + 6 * arith::word(), old_end as int, q) && q < old_end
                        ==> f.mem.heads@[q] == 3 + arith::word()
                &&& f.mem.heads@[tbase as int] == tsize - 10 * arith::word() + 1
                &&& f.mem.heads@[tbase + tsize - 10 * arith::word()] == 10 * arith::word()
                &&& forall|q: int|
                    !(csp <= q < old_end) && q != tbase && q != tbase + tsize - 10
                        * arith::word() ==> #[trigger] f.mem.heads@[q] == o.mem.heads@[q]
                &&& f.footprint == o.footprint + tsize
                &&& f.max_footprint == if f.footprint > o.max_footprint {
                    f.footprint
                } else {
                    o.max_footprint
                }
                &&& f.least_addr == if tbase < o.least_addr {
                    tbase
                } else {
                    o.least_addr
                }
            }),
    {
        proof {
            sizes::lemma_round_aligned(tbase as int);
            sizes::lemma_round_aligned(tsize as int);
        }
        self.book(tsize);
        self.lower(tbase);
        let ssize: usize = self.pad_request(4 * arith::word_size());
        let ss: usize = Chunk::to_mem(csp);
        let tnext: usize = Chunk::plus_offset(csp, ssize);
        let size: usize = tsize - self.top_foot_size();
        self.init_top(tbase, size);
        Chunk::set_size_and_pinuse_of_inuse_chunk(&mut self.mem, csp, ssize);
        let seg: Segment = self.seg;
        self.mem.records.set(ss, seg);
        self.seg.base = tbase;
        self.seg.size = tsize;
        self.seg.flags = flags;
        self.seg.next = ss;
        self.put_fences(tnext, old_end);
    }

    /// Makes a region that borders on no segment the newest segment.
    #[verifier::rlimit(50)]
    fn add_segment(&mut self, tbase: usize, tsize: usize, flags: u32)
        requires
            old(self).wf(),
            old(self).top != 0,
            regions::region_ok(old(self)@.segs, tbase as int, tsize as int),
        ensures
            final(self).wf(),
            final(self)@ == old(self)@.add(tbase as int, tsize as int, flags),
            ({
                let csp = regions::record_chunk(old(self)@.top, old(self)@.topsize);
                let g = old(self)@.segs[0];
                let start = csp + 6 * arith::word();
                let end = g.base + g.size;
                &&& forall|q: int| #[trigger]
                    fenced(start, end, q) && q < end ==> final(self).mem.heads@[q] == 3
                        + arith::word()
                &&& fenced(start, end, start)
                &&& fenced(start, end, start + arith::word())
                &&& start + arith::word() < end
            }),
            final(self).keeps(old(self)),
    {
        let ghost o = *self;
        let old_top: usize = self.top;
        let (csp, old_end) = self.record_place();
        proof {
            lemma_newest(o);
            lemma_two_fences(csp + 6 * arith::word(), old_end as int);
            regions::lemma_footprint(o, tbase as int, tsize as int);
            assert(state::segs_apart(
                Seg { at: 0, base: tbase as int, size: tsize as int, flags: 0 },
                o.model@.segs[0],
            ));
        }
        self.write_segment(tbase, tsize, flags, csp, old_end);
        let ghost e = Set::<int>::empty();
        let ghost c2 = regions::move_top(
            o@.chunks,
            o@.top,
            o@.topsize,
            tbase as int,
            tsize as int,
        );
        let ghost segs2 = regions::add_front(
            o@.segs,
            csp + 2 * arith::word(),
            tbase as int,
            tsize as int,
            flags,
        );
        if csp != old_top {
            let psize: usize = csp - old_top;
            let tn: usize = Chunk::plus_offset(old_top, psize);
            Chunk::set_free_with_pinuse(&mut self.mem, old_top, psize, tn);
            proof {
                self.model@ = Model { chunks: c2, segs: segs2, ..self.model@ };
                regions::lemma_added(o, *self, tbase as int, tsize as int, flags);
                lemma_added_words(o, *self, tbase as int, tsize as int);
                assert(e.insert(old_top as int).remove(old_top as int) =~= e);
            }
            let ghost d = *self;
            self.insert_chunk(old_top, psize, Ghost(e.insert(old_top as int)));
            proof {
                words::lemma_kept_on(o, d, *self, 0, 0);
            }
        } else {
            proof {
                self.model@ = Model { chunks: c2, segs: segs2, ..self.model@ };
                regions::lemma_added(o, *self, tbase as int, tsize as int, flags);
                lemma_added_words(o, *self, tbase as int, tsize as int);
            }
        }
    }

    /// Whether the newest segment can go on into memory of these flags at `tbase`.
    fn can_extend(&self, tbase: usize, flags: u32) -> (r: bool)
        requires
            self.wf(),
            self.top != 0,
        ensures
            r == self@.extends(tbase as int, flags),
    {
        let ghost segs = self.model@.segs;
        proof {
            lemma_newest(*self);
        }
        let sp: usize = self.segment_ending(tbase);
        if sp == 0 {
            return false;
        }
        let ghost i = choose|i: int|
            0 <= i < segs.len() && #[trigger] segs[i].at == sp && segs[i].base + segs[i].size
                == tbase;
        proof {
            self.lemma_record(i);
            assert(state::seg_ok(self.model@.chunks, segs, self.top as int, i));
            assert(state::seg_ok(self.model@.chunks, segs, self.top as int, 0));
            if i > 0 {
                assert(state::segs_apart(segs[0], segs[i]));
            }
        }
        let s: Segment = self.segment_at(sp);
        !Segment::is_extern(&s) && Segment::sys_flags(&s) == flags && Segment::holds(&s, self.top)
    }

    /// The record of the segment that starts at `x`, if it can go back into memory of these
    /// flags, or zero.
    fn can_prepend(&self, x: usize, flags: u32) -> (r: usize)
        requires
            self.wf(),
            self.top != 0,
        ensures
            ({
                let j = seg_at(self@.segs, x as int);
                if starts_at(self@.segs, j, x as int) && same_kind(self@.segs[j], flags) {
                    r == self@.segs[j].at && r != 0
                } else {
                    r == 0
                }
            }),
    {
        let ghost segs = self.model@.segs;
        let ghost j = seg_at(segs, x as int);
        proof {
            lemma_newest(*self);
        }
        let sp: usize = self.segment_starting(x);
        if sp == 0 {
            return 0;
        }
        let ghost i = choose|i: int|
            0 <= i < segs.len() && #[trigger] segs[i].at == sp && segs[i].base == x;
        proof {
            assert(starts_at(segs, i, x as int));
            self.lemma_record(i);
            assert(state::seg_ok(self.model@.chunks, segs, self.top as int, i));
            assert(state::seg_ok(self.model@.chunks, segs, self.top as int, j));
            if i < j {
                assert(state::segs_apart(segs[i], segs[j]));
            }
            if j < i {
                assert(state::segs_apart(segs[j], segs[i]));
            }
        }
        let s: Segment = self.segment_at(sp);
        if !Segment::is_extern(&s) && Segment::sys_flags(&s) == flags {
            sp
        } else {
            0
        }
    }

    /// Whether the `tsize` bytes from `tbase` on can become managed memory.
    pub fn accepts(&self, tbase: usize, tsize: usize) -> (r: bool)
        requires
            self.wf(),
        ensures
            r == regions::region_ok(self@.segs, tbase as int, tsize as int),
    {
        let ghost segs = self.model@.segs;
        let ghost g0 = Seg { at: 0, base: tbase as int, size: tsize as int, flags: 0 };
        if tbase < FIRST_ADDR || !self.is_aligned(tbase) || !self.is_aligned(tsize) || tsize
            < DEFAULT_GRANULARITY || tsize > usize::MAX - tbase {
            return false;
        }
        if self.top == 0 {
            proof {
                regions::lemma_nothing(*self);
            }
            return true;
        }
        let mut sp: usize = SEGMENT_ADDR;
        let ghost mut k = 0int;
        proof {
            lemma_newest(*self);
        }
        while sp != 0
            invariant
                self.wf(),
                segs == self.model@.segs,
                g0 == (Seg { at: 0, base: tbase as int, size: tsize as int, flags: 0 }),
                tbase + tsize <= usize::MAX,
                0 <= k <= segs.len(),
                sp == crate::segwalk::record_addr(segs, k),
                forall|i: int| 0 <= i < k ==> state::segs_apart(g0, #[trigger] segs[i]),
            decreases segs.len() - k,
        {
            proof {
                self.lemma_record(k);
            }
            let s: Segment = self.segment_at(sp);
            if !(tbase + tsize <= s.base || Segment::top(&s) <= tbase) {
                assert(!state::segs_apart(g0, segs[k]));
                return false;
            }
            sp = s.next;
            proof {
                k = k + 1;
            }
        }
        proof {
            if k < segs.len() {
                self.lemma_record(k);
            }
        }
        true
    }

    /// Serves a chunk of `nb` bytes from the region that the system has handed out: `tsize`
    /// bytes from `tbase` on, or none if `tbase` is zero. Gives back the address of the memory,
    /// or zero.
    pub fn sys_alloc(&mut self, nb: usize, tbase: usize, tsize: usize, flags: u32) -> (r: usize)
        requires
            old(self).wf(),
            4 * arith::word() <= nb,
            arith::aligned(nb as int),
            tbase != 0 ==> old(self)@.can_take(nb as int, tbase as int, tsize as int, flags),
        ensures
            final(self).wf(),
            if tbase == 0 {
                r == 0 && *final(self) == *old(self)
            } else {
                (final(self)@, r as int) == old(self)@.grow(
                    nb as int,
                    tbase as int,
                    tsize as int,
                    flags,
                )
            },
            final(self).keeps(old(self)),
    {
        proof {
            words::lemma_idle(*self, 0);
        }
        if tbase == 0 {
            return 0;
        }
        if self.top == 0 {
            self.start_region(tbase, tsize, flags);
        } else {
            proof {
                lemma_newest(*self);
            }
            if self.can_extend(tbase, flags) {
                self.extend_top(tbase, tsize);
            } else {
                let sp: usize = self.can_prepend(tbase + tsize, flags);
                if sp != 0 {
                    let ghost j = seg_at(self@.segs, tbase + tsize);
                    return self.prepend_alloc(sp, tbase, tsize, nb, Ghost(j));
                }
                self.add_segment(tbase, tsize, flags);
            }
        }
        if nb < self.topsize {
            proof {
                crate::malloc::lemma_room(*self, self.top as int);
            }
            let ghost d = *self;
            let p: usize = self.carve_top(nb);
            proof {
                words::lemma_kept_on(*old(self), d, *self, 0, 0);
            }
            return Chunk::to_mem(p);
        }
        0
    }
}

/// No client holds memory from the top chunk to the end of its segment.
pub(crate) proof fn lemma_end_spared(d: Dlmalloc)
    requires
        d.wf(),
        d.top != 0,
    ensures
        words::spares(
            d.model@.chunks,
            d.top as int,
            d.model@.segs[0].base + d.model@.segs[0].size,
            0,
        ),
{
    let c = d.model@.chunks;
    let segs = d.model@.segs;
    let top = d.top as int;
    lemma_newest(d);
    assert forall|q: int| #[trigger] c.contains_key(q) && c[q].tag is Used implies q + c[q].size
        <= top || segs[0].base + segs[0].size <= q by {
        assert(c.contains_key(top));
        assert(q < top ==> q + c[q].size <= top);
        assert(top < q ==> top + c[top].size <= q);
        assert(state::chunk_ok(c, d.mem.heads@, d.mem.feet@, q));
        assert(state::housed(c, segs, q));
        let i = choose|i: int| #[trigger] state::within(c, segs, i, q);
        assert(state::seg_ok(c, segs, top, i));
        segments::lemma_limit(c, segs, top, q, i);
        if i > 0 {
            assert(state::segs_apart(segs[0], segs[i]));
        }
    }
}

/// No client holds memory of a new region.
proof fn lemma_region_spared(d: Dlmalloc, base: int, size: int)
    requires
        d.wf(),
        regions::region_ok(d.model@.segs, base, size),
    ensures
        words::spares(d.model@.chunks, base, base + size, 0),
        forall|q: int| #[trigger] d.model@.chunks.contains_key(q) ==> !(base <= q < base + size),
{
    let c = d.model@.chunks;
    assert forall|q: int| #[trigger] c.contains_key(q) implies q + c[q].size <= base || base + size
        <= q by {
        assert(state::chunk_ok(c, d.mem.heads@, d.mem.feet@, q));
        regions::lemma_outside(c, d.model@.segs, d.top as int, base, size, q);
    }
    assert forall|q: int| #[trigger] c.contains_key(q) implies !(base <= q < base + size) by {
        assert(state::chunk_ok(c, d.mem.heads@, d.mem.feet@, q));
    }
}

/// No client holds memory of a segment record.
pub(crate) proof fn lemma_record_spared(d: Dlmalloc, j: int)
    requires
        d.wf(),
        1 <= j < d.model@.segs.len(),
    ensures
        ({
            let rec = d.model@.segs[j].at - 2 * arith::word();
            words::spares(d.model@.chunks, rec, rec + 6 * arith::word(), 0)
        }),
{
    let c = d.model@.chunks;
    let rec = d.model@.segs[j].at - 2 * arith::word();
    assert(state::seg_ok(c, d.model@.segs, d.top as int, j));
    assert(state::chunk_ok(c, d.mem.heads@, d.mem.feet@, rec));
    assert(c.contains_key(rec));
}

/// The words of a new segment and of the record that it makes necessary are in the memory of no
/// client.
proof fn lemma_added_words(o: Dlmalloc, d: Dlmalloc, tbase: int, tsize: int)
    requires
        o.wf(),
        o.top != 0,
        regions::region_ok(o.model@.segs, tbase, tsize),
        d.model@.chunks == regions::move_top(
            o.model@.chunks,
            o.top as int,
            o.topsize as int,
            tbase,
            tsize,
        ),
        d.mem == (Memory {
            heads: d.mem.heads,
            feet: d.mem.feet,
            records: d.mem.records,
            ..o.mem
        }),
        ({
            let csp = regions::record_chunk(o.top as int, o.topsize as int);
            let end = o.model@.segs[0].base + o.model@.segs[0].size;
            &&& forall|y: int|
                !(o.top <= y <= end) && !(tbase <= y <= tbase + tsize) ==> #[trigger]
                    d.mem.heads@[y] == o.mem.heads@[y]
            &&& forall|y: int| y != csp || csp == o.top ==> #[trigger] d.mem.feet@[y]
                == o.mem.feet@[y]
            &&& forall|y: int| y != csp + 2 * arith::word() ==> #[trigger] d.mem.records@[y]
                == o.mem.records@[y]
        }),
    ensures
        d.keeps(&o),
{
    let c = o.model@.chunks;
    let end = o.model@.segs[0].base + o.model@.segs[0].size;
    let csp = regions::record_chunk(o.top as int, o.topsize as int);
    lemma_newest(o);
    lemma_end_spared(o);
    lemma_region_spared(o, tbase, tsize);
    assert forall|q: int| #[trigger] c.contains_key(q) && c[q].tag is Used implies {
        &&& d.model@.chunks.contains_key(q)
        &&& d.model@.chunks[q] == c[q]
    } by {
        assert(state::chunk_ok(c, o.mem.heads@, o.mem.feet@, q));
    }
    words::lemma_rewritten(o, d, o.top as int, end, tbase, tbase + tsize, 0);
}

/// The newest segment and the top chunk at its end.
pub(crate) proof fn lemma_newest(d: Dlmalloc)
    requires
        d.wf(),
        d.top != 0,
    ensures
        ({
            let g = d.model@.segs[0];
            let c = d.model@.chunks;
            let csp = regions::record_chunk(d.top as int, d.topsize as int);
            &&& d.model@.segs.len() > 0
            &&& g.at == SEGMENT_ADDR
            &&& g.base <= d.top
            &&& d.top + d.topsize == g.base + g.size - 10 * arith::word()
            &&& g.base + g.size <= usize::MAX
            &&& d.seg.base == g.base
            &&& d.seg.size == g.size
            &&& d.top >= state::FIRST_ADDR
            &&& arith::aligned(d.top as int)
            &&& arith::aligned(d.topsize as int)
            &&& arith::aligned(g.base + g.size)
            &&& d.topsize >= 2 * arith::word()
            &&& d.topsize % 8 == 0
            &&& d.mem.heads@[d.top as int] == d.topsize + 1
            &&& c.contains_key(d.top as int)
            &&& csp + 10 * arith::word() <= g.base + g.size
            &&& csp >= d.top
        }),
{
    let c = d.model@.chunks;
    let segs = d.model@.segs;
    d.lemma_record(0);
    assert(state::seg_ok(c, segs, d.top as int, 0));
    assert(state::chunk_ok(c, d.mem.heads@, d.mem.feet@, d.top as int));
    sizes::lemma_aligned_sub(segs[0].base, segs[0].size);
    sizes::lemma_aligned_least(d.topsize as int);
}

/// The word at `q` is one of those that mark the memory from `start` to `end`.
pub open spec fn fenced(start: int, end: int, q: int) -> bool {
    start <= q && (q - start) % arith::word() == 0 && (q == start || q + arith::word() < end)
}

/// Two marks at least find room in four words.
proof fn lemma_two_fences(start: int, end: int)
    requires
        start + 4 * arith::word() <= end,
    ensures
        fenced(start, end, start),
        fenced(start, end, start + arith::word()),
{
    vstd::arithmetic::div_mod::lemma_mod_self_0(arith::word());
    vstd::arithmetic::div_mod::lemma_small_mod(0, arith::word() as nat);
}

/// The marks are a word apart.
proof fn lemma_fence_steps(start: int, end: int, p: int, k: int)
    requires
        0 <= k,
        p == start + k * arith::word(),
        p == start || p + arith::word() < end,
    ensures
        fenced(start, end, p),
        forall|q: int| #[trigger] fenced(start, end, q) && q < p + arith::word() ==> q <= p,
        forall|q: int| #[trigger] fenced(start, end, q) && q > p ==> q + arith::word() < end,
        !(p + 2 * arith::word() < end) ==> forall|q: int| #[trigger]
            fenced(start, end, q) ==> q <= p,
{
    let w = arith::word();
    assert((k * w) % w == 0) by {
        vstd::arithmetic::div_mod::lemma_mod_multiples_basic(k, w);
    }
    assert forall|q: int| #[trigger] fenced(start, end, q) && q > p implies q >= p + w by {
        let d = q - p;
        assert((q - start) == k * w + d);
        vstd::arithmetic::div_mod::lemma_mod_multiples_vanish(k, d, w);
        assert(w * k == k * w) by (nonlinear_arith);
        assert(d % w == 0);
        if d < w {
            vstd::arithmetic::div_mod::lemma_small_mod(d as nat, w as nat);
        }
    }
}

} // verus!
