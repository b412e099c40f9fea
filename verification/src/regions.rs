//! How regions from the system become segments.
use vstd::prelude::*;
use crate::arith;
use crate::carve;
use crate::segments;
use crate::sizes;
use crate::state;
use crate::state::{Block, Dlmalloc, Seg, Tag, FIRST_ADDR, SEGMENT_ADDR};
use crate::totals;

verus! {

/// Memory from `base` on for `size` bytes can become managed memory: it is at least a unit that
/// the system is asked for, starts and ends at multiples of two words, a unit before the last
/// address, and no segment overlaps it.
pub open spec fn region_ok(segs: Seq<Seg>, base: int, size: int) -> bool {
    &&& FIRST_ADDR <= base
    &&& arith::aligned(base)
    &&& arith::aligned(size)
    &&& 65536 <= size
    &&& base + size <= usize::MAX
    &&& forall|i: int|
        0 <= i < segs.len() ==> state::segs_apart(
            Seg { at: 0, base, size, flags: 0 },
            #[trigger] segs[i],
        )
}

/// The footprint can take up a new region.
pub(crate) proof fn lemma_footprint(d: Dlmalloc, base: int, size: int)
    requires
        d.segs_wf(),
        region_ok(d.model@.segs, base, size),
    ensures
        d.footprint + size <= usize::MAX,
{
    let segs = d.model@.segs;
    let n = segs.len() as int;
    let s2 = segs.push(Seg { at: 0, base, size, flags: 0 });
    assert forall|i: int| 0 <= i < s2.len() implies 0 <= (#[trigger] s2[i]).base && 0 <= s2[i].size
        && s2[i].base + s2[i].size <= usize::MAX by {
        if i < n {
            assert(state::seg_ok(d.model@.chunks, segs, d.top as int, i));
        }
    }
    assert forall|i: int, j: int| 0 <= i < j < s2.len() implies state::segs_apart(
        #[trigger] s2[i],
        #[trigger] s2[j],
    ) by {
        if j < n {
            assert(state::segs_apart(segs[i], segs[j]));
        } else {
            assert(s2[i] == segs[i]);
        }
    }
    totals::lemma_total_bound(s2);
    totals::lemma_total_prefix(segs, s2, n);
}

/// No chunk reaches into a new region.
pub proof fn lemma_outside(
    c: Map<int, Block>,
    segs: Seq<Seg>,
    top: int,
    base: int,
    size: int,
    p: int,
)
    requires
        state::segs_ok(c, segs, top),
        region_ok(segs, base, size),
        c.contains_key(p),
        c[p].size > 0,
    ensures
        p + c[p].size + 4 * arith::word() <= base || base + size <= p,
{
    assert(state::housed(c, segs, p));
    let i = choose|i: int| #[trigger] state::within(c, segs, i, p);
    assert(state::seg_ok(c, segs, top, i));
    segments::lemma_limit(c, segs, top, p, i);
    assert(state::segs_apart(Seg { at: 0, base, size, flags: 0 }, segs[i]));
}

/// The end mark of a segment lies in no new region.
proof fn lemma_limit_outside(d: Dlmalloc, base: int, size: int, i: int)
    requires
        d.phys_wf(),
        d.segs_wf(),
        region_ok(d.model@.segs, base, size),
        0 <= i < d.model@.segs.len(),
    ensures
        ({
            let segs = d.model@.segs;
            let l = state::limit(segs, i);
            &&& !(base <= l < base + size)
            &&& segs[i].base <= l <= segs[i].base + segs[i].size - 4 * arith::word()
        }),
{
    let segs = d.model@.segs;
    let c = d.model@.chunks;
    assert(state::seg_ok(c, segs, d.top as int, i));
    assert(state::chunk_ok(c, d.mem.heads@, d.mem.feet@, segs[i].base));
    segments::lemma_limit(c, segs, d.top as int, segs[i].base, i);
    assert(state::segs_apart(Seg { at: 0, base, size, flags: 0 }, segs[i]));
}

/// Nothing but the segments, the chunks and their headers differs.
pub(crate) open spec fn only_grown(d: Dlmalloc, o: Dlmalloc, size: int) -> bool {
    &&& d.same_bins(&o)
    &&& d.mem.origins == o.mem.origins
    &&& d.footprint == o.footprint + size
    &&& d.max_footprint == if d.footprint > o.max_footprint {
        d.footprint
    } else {
        o.max_footprint
    }
    &&& d.dv == o.dv
    &&& d.dvsize == o.dvsize
}

/// There is neither a chunk nor a free list before the first region.
pub(crate) proof fn lemma_nothing(o: Dlmalloc)
    requires
        o.wf(),
        o.top == 0,
    ensures
        o.model@.segs.len() == 0,
        o.model@.chunks =~= Map::empty(),
        forall|s: int| !#[trigger] o.model@.small.contains_key(s),
        forall|s: int| !#[trigger] o.model@.large.contains_key(s),
        o.dv == 0,
        o.footprint == 0,
{
    let m = o.model@;
    assert forall|p: int| !#[trigger] m.chunks.contains_key(p) by {
        if m.chunks.contains_key(p) {
            carve::lemma_top_there(o, p);
        }
    }
    assert forall|s: int| !#[trigger] m.small.contains_key(s) by {
        if m.small.contains_key(s) {
            let p = m.small[s][0];
            assert(m.small[s].contains(p));
            assert(state::in_bin(m.small, m.large, s, p));
        }
    }
    assert forall|s: int| !#[trigger] m.large.contains_key(s) by {
        if m.large.contains_key(s) {
            let p = m.large[s][0];
            assert(m.large[s].contains(p));
            assert(state::in_bin(m.small, m.large, s, p));
        }
    }
}

/// The first region holds nothing but the top chunk.
pub(crate) proof fn lemma_started(o: Dlmalloc, d: Dlmalloc, base: int, size: int, flags: u32)
    requires
        o.wf(),
        o.top == 0,
        region_ok(o.model@.segs, base, size),
        d.footprint == size,
        size <= d.max_footprint,
        d.dv == o.dv,
        d.dvsize == o.dvsize,
        0 < d.least_addr <= base,
        d.top == base,
        d.topsize == size - 10 * arith::word(),
        d.smallmap == o.smallmap,
        d.treemap == o.treemap,
        d.treebins == o.treebins,
        d.mem.heads@ == o.mem.heads@.insert(base, (d.topsize + 1) as usize).insert(
            base + d.topsize,
            (10 * arith::word()) as usize,
        ),
        d.seg == (crate::memory::Segment { base: base as usize, size: size as usize, next: 0, flags }),
        d.model@.small == o.model@.small,
        d.model@.large == o.model@.large,
        d.model@.trie == o.model@.trie,
        d.model@.level == o.model@.level,
        d.model@.chunks == o.model@.chunks.insert(
            base,
            Block { size: size - 10 * arith::word(), tag: Tag::Top },
        ),
        d.model@.segs == seq![Seg { at: SEGMENT_ADDR as int, base, size, flags }],
    ensures
        d.wf(),
{
    lemma_nothing(o);
    let m = d.model@;
    let c = m.chunks;
    let segs = m.segs;
    sizes::lemma_round_behind(size);
    sizes::lemma_round_aligned(size - 10 * arith::word());
    assert(state::chunk_ok(c, d.mem.heads@, d.mem.feet@, base));
    assert(state::within(c, segs, 0, base));
    assert(state::seg_ok(c, segs, base, 0));
    assert forall|p: int| c.contains_key(p) implies #[trigger] state::housed(c, segs, p) by {
        assert(p == base);
    }
    assert(state::total(segs, 1) == size) by {
        assert(state::total(segs, 0) == 0);
    }
    assert(d.records_wf());
    assert forall|s: int, p: int| !#[trigger] state::in_bin(m.small, m.large, s, p) by {
    }
    assert(d.bins_wf());
}

/// The top chunk gets longer.
proof fn lemma_extended_chunks(
    c: Map<int, Block>,
    c2: Map<int, Block>,
    heads: Map<int, usize>,
    heads2: Map<int, usize>,
    feet: Map<int, usize>,
    top: int,
    size: int,
    end: int,
)
    requires
        state::chunks_ok(c, heads, feet),
        c.contains_key(top),
        c[top].tag is Top,
        size > 0,
        arith::aligned(size),
        top + c[top].size + size < end <= usize::MAX,
        forall|q: int| #[trigger] c.contains_key(q) ==> q <= top || end <= q,
        c2 == c.insert(top, Block { size: c[top].size + size, tag: Tag::Top }),
        heads2 == heads.insert(top, (c[top].size + size + 1) as usize).insert(
            top + c[top].size + size,
            (10 * arith::word()) as usize,
        ),
    ensures
        state::chunks_ok(c2, heads2, feet),
{
    assert(state::chunk_ok(c, heads, feet, top));
    sizes::lemma_aligned_sub(c[top].size, size);
    sizes::lemma_round_aligned(c[top].size + size);
    assert forall|q: int| c2.contains_key(q) implies #[trigger] state::chunk_ok(
        c2,
        heads2,
        feet,
        q,
    ) by {
        assert(c.contains_key(q));
        assert(state::chunk_ok(c, heads, feet, q));
    }
    assert forall|p: int, q: int| #[trigger]
        c2.contains_key(p) && #[trigger] c2.contains_key(q) && p < q implies p + c2[p].size <= q by {
        assert(c.contains_key(p) && c.contains_key(q));
    }
}

/// The newest segment gets longer, and the top chunk with it.
proof fn lemma_extended_segs(
    c: Map<int, Block>,
    c2: Map<int, Block>,
    segs: Seq<Seg>,
    segs2: Seq<Seg>,
    top: int,
    size: int,
)
    requires
        state::segs_ok(c, segs, top),
        segs.len() > 0,
        c.contains_key(top),
        c[top].tag is Top,
        c[top].size > 0,
        region_ok(segs, segs[0].base + segs[0].size, size),
        c2 == c.insert(top, Block { size: c[top].size + size, tag: Tag::Top }),
        segs2 == segs.update(0, Seg { size: segs[0].size + size, ..segs[0] }),
    ensures
        state::segs_ok(c2, segs2, top),
{
    let n = segs.len() as int;
    assert(state::seg_ok(c, segs, top, 0));
    sizes::lemma_aligned_sub(segs[0].size, size);
    assert forall|i: int| 0 <= i < n implies #[trigger] state::seg_ok(c2, segs2, top, i) by {
        assert(state::seg_ok(c, segs, top, i));
    }
    assert forall|i: int, j: int| 0 <= i < j < n implies state::segs_apart(
        #[trigger] segs2[i],
        #[trigger] segs2[j],
    ) by {
        assert(state::segs_apart(segs[i], segs[j]));
        assert(segs2[j] == segs[j]);
        assert(state::seg_ok(c, segs, top, j));
    }
    assert forall|p: int| c2.contains_key(p) implies #[trigger] state::housed(c2, segs2, p) by {
        assert(state::housed(c, segs, p));
        let i = choose|i: int| #[trigger] state::within(c, segs, i, p);
        if p == top {
            assert(state::within(c2, segs2, 0, p));
        } else {
            assert(state::within(c2, segs2, i, p));
        }
    }
    assert forall|p: int| #[trigger] c2.contains_key(p) && c2[p].tag is Record implies exists|i: int|
        1 <= i < n && #[trigger] segs2[i].at == p + 2 * arith::word() by {
        assert(c.contains_key(p));
        let i = choose|i: int| 1 <= i < n && #[trigger] segs[i].at == p + 2 * arith::word();
        assert(segs2[i] == segs[i]);
    }
}

/// The newest segment and the top chunk go on into the region behind them.
#[verifier::rlimit(50)]
pub(crate) proof fn lemma_extended(o: Dlmalloc, d: Dlmalloc, size: int)
    requires
        o.wf(),
        o.top != 0,
        region_ok(o.model@.segs, o.model@.segs[0].base + o.model@.segs[0].size, size),
        only_grown(d, o, size),
        d.least_addr == o.least_addr,
        d.mem.feet == o.mem.feet,
        d.mem.records == o.mem.records,
        d.top == o.top,
        d.topsize == o.topsize + size,
        d.mem.heads@ == o.mem.heads@.insert(o.top as int, (d.topsize + 1) as usize).insert(
            o.top + d.topsize,
            (10 * arith::word()) as usize,
        ),
        d.seg == (crate::memory::Segment { size: (o.seg.size + size) as usize, ..o.seg }),
        d.model@.chunks == o.model@.chunks.insert(
            o.top as int,
            Block { size: o.topsize + size, tag: Tag::Top },
        ),
        d.model@.segs == o.model@.segs.update(
            0,
            Seg { size: o.model@.segs[0].size + size, ..o.model@.segs[0] },
        ),
    ensures
        d.wf(),
{
    let c = o.model@.chunks;
    let c2 = d.model@.chunks;
    let segs = o.model@.segs;
    let segs2 = d.model@.segs;
    let top = o.top as int;
    let base = segs[0].base + segs[0].size;
    let end = top + d.topsize;
    let n = segs.len() as int;
    assert(state::seg_ok(c, segs, top, 0));
    assert(state::chunk_ok(c, o.mem.heads@, o.mem.feet@, top));
    assert(end == base + size - 10 * arith::word());
    assert forall|q: int| #[trigger] c.contains_key(q) implies q <= top || base + size <= q by {
        assert(state::chunk_ok(c, o.mem.heads@, o.mem.feet@, q));
        lemma_outside(c, segs, top, base, size, q);
        if top < q {
            assert(top + c[top].size <= q);
            assert(state::housed(c, segs, q));
            let i = choose|i: int| #[trigger] state::within(c, segs, i, q);
            if i > 0 {
                assert(state::seg_ok(c, segs, top, i));
                assert(state::segs_apart(segs[0], segs[i]));
            }
        }
    }
    assert(!c2.contains_key(end));
    lemma_extended_chunks(c, c2, o.mem.heads@, d.mem.heads@, o.mem.feet@, top, size, base + size);
    lemma_extended_segs(c, c2, segs, segs2, top, size);
    assert(state::marks_ok(segs2, d.mem.heads@)) by {
        assert forall|i: int| #![trigger segs2[i]] 0 < i < n implies d.mem.heads@[state::limit(
            segs2,
            i,
        )] == 3 + arith::word() by {
            assert(segs2[i] == segs[i]);
            lemma_limit_outside(o, base, size, i);
            segments::lemma_limit(c, segs, top, top, i);
        }
    }
    totals::lemma_total_update(segs, segs2, n, 0);
    assert(d.records_wf()) by {
        assert forall|i: int| 1 <= i < n implies d.mem.records@[#[trigger] segs2[i].at]
            == state::record_of(segs2, i) by {
            assert(segs2[i] == segs[i]);
        }
    }
    assert forall|t: int, q: int| #[trigger]
        state::in_bin(o.model@.small, o.model@.large, t, q) implies d.mem.heads@[q]
        == o.mem.heads@[q] by {
        assert(c.contains_key(q));
    }
    d.lemma_bins_kept(&o);
}

/// The segments with segment `j` going back to `base`.
pub open spec fn reach_back(segs: Seq<Seg>, j: int, base: int, size: int) -> Seq<Seg> {
    segs.update(j, Seg { base, size: segs[j].size + size, ..segs[j] })
}

/// Two chunks in use fill the region that ends with chunk `base + size`.
proof fn lemma_prepended_chunks(
    c: Map<int, Block>,
    c2: Map<int, Block>,
    heads: Map<int, usize>,
    heads2: Map<int, usize>,
    feet: Map<int, usize>,
    base: int,
    size: int,
    nb: int,
)
    requires
        state::chunks_ok(c, heads, feet),
        c.contains_key(base + size),
        FIRST_ADDR <= base,
        arith::aligned(base),
        arith::aligned(size),
        base + size <= usize::MAX,
        4 * arith::word() <= nb <= size - 4 * arith::word(),
        arith::aligned(nb),
        forall|q: int| #[trigger] c.contains_key(q) ==> q + c[q].size < base || base + size <= q,
        heads2 == heads.insert(base, (nb + 3) as usize).insert(
            base + nb,
            (size - nb + 3) as usize,
        ),
        c2 == c.insert(base, Block { size: nb, tag: Tag::Used }).insert(
            base + nb,
            Block { size: size - nb, tag: Tag::Used },
        ),
    ensures
        state::chunks_ok(c2, heads2, feet),
{
    sizes::lemma_aligned_sub(base, nb);
    sizes::lemma_aligned_sub(size, nb);
    sizes::lemma_round_aligned(nb);
    sizes::lemma_round_aligned(size - nb);
    assert(state::chunk_ok(c, heads, feet, base + size));
    assert forall|q: int| c2.contains_key(q) implies #[trigger] state::chunk_ok(
        c2,
        heads2,
        feet,
        q,
    ) by {
        if q != base && q != base + nb {
            assert(c.contains_key(q));
            assert(state::chunk_ok(c, heads, feet, q));
            if state::prior_free(c, feet, q) {
                assert(state::prior_free(c2, feet, q));
            }
        }
    }
    assert forall|p: int, q: int| #[trigger]
        c2.contains_key(p) && #[trigger] c2.contains_key(q) && p < q implies p + c2[p].size <= q by {
        if p != base && p != base + nb {
            assert(c.contains_key(p));
            assert(state::chunk_ok(c, heads, feet, p));
        }
        if q != base && q != base + nb {
            assert(c.contains_key(q));
            assert(state::chunk_ok(c, heads, feet, q));
        }
    }
}

/// Segment `j` goes back to `base`.
#[verifier::rlimit(50)]
proof fn lemma_prepended_segs(
    c: Map<int, Block>,
    c2: Map<int, Block>,
    segs: Seq<Seg>,
    segs2: Seq<Seg>,
    top: int,
    j: int,
    base: int,
    size: int,
    nb: int,
)
    requires
        state::segs_ok(c, segs, top),
        0 <= j < segs.len(),
        c.contains_key(top),
        c[top].tag is Top,
        region_ok(segs, base, size),
        segs[j].base == base + size,
        c[base + size].size > 0,
        0 < nb < size,
        forall|q: int| #[trigger] c.contains_key(q) ==> q + c[q].size < base || base + size <= q,
        forall|q: int| #[trigger] c.contains_key(q) ==> c[q].size > 0,
        c2 == c.insert(base, Block { size: nb, tag: Tag::Used }).insert(
            base + nb,
            Block { size: size - nb, tag: Tag::Used },
        ),
        segs2 == reach_back(segs, j, base, size),
    ensures
        state::segs_ok(c2, segs2, top),
        forall|i: int| 0 <= i < segs.len() ==> #[trigger] state::limit(segs2, i) == state::limit(
            segs,
            i,
        ),
{
    let n = segs.len() as int;
    let q0 = base + nb;
    let end = base + size;
    assert(state::seg_ok(c, segs, top, j));
    sizes::lemma_aligned_sub(segs[j].size, size);
    assert forall|i: int| 0 <= i < n implies #[trigger] state::limit(segs2, i) == state::limit(
        segs,
        i,
    ) by {
    }
    assert forall|i: int| 0 <= i < n implies #[trigger] state::seg_ok(c2, segs2, top, i) by {
        assert(state::seg_ok(c, segs, top, i));
        assert(state::limit(segs2, i) == state::limit(segs, i));
        if i == 0 {
            assert(c.contains_key(top));
        } else {
            assert(c.contains_key(segs[i].at - 2 * arith::word()));
        }
    }
    assert forall|i: int, k: int| 0 <= i < k < n implies state::segs_apart(
        #[trigger] segs2[i],
        #[trigger] segs2[k],
    ) by {
        assert(state::segs_apart(segs[i], segs[k]));
        assert(state::seg_ok(c, segs, top, i));
        assert(state::seg_ok(c, segs, top, k));
    }
    segments::lemma_limit(c, segs, top, end, j);
    assert forall|p: int| c2.contains_key(p) implies #[trigger] state::housed(c2, segs2, p) by {
        if p == base || p == q0 {
            assert(state::limit(segs2, j) == state::limit(segs, j));
            assert(state::within(c2, segs2, j, p));
        } else {
            assert(state::housed(c, segs, p));
            let i = choose|i: int| #[trigger] state::within(c, segs, i, p);
            assert(state::limit(segs2, i) == state::limit(segs, i));
            assert(state::within(c2, segs2, i, p));
        }
    }
    assert forall|p: int| #[trigger] c2.contains_key(p) && c2[p].tag is Record implies exists|i: int|
        1 <= i < n && #[trigger] segs2[i].at == p + 2 * arith::word() by {
        assert(c.contains_key(p));
        let i = choose|i: int| 1 <= i < n && #[trigger] segs[i].at == p + 2 * arith::word();
        assert(segs2[i].at == segs[i].at);
    }
}

/// Segment `j` goes back into the region in front of it, which two chunks in use fill.
#[verifier::rlimit(50)]
pub(crate) proof fn lemma_prepended(
    o: Dlmalloc,
    d: Dlmalloc,
    j: int,
    base: int,
    size: int,
    nb: int,
)
    requires
        o.wf(),
        0 <= j < o.model@.segs.len(),
        region_ok(o.model@.segs, base, size),
        o.model@.segs[j].base == base + size,
        4 * arith::word() <= nb <= size - 4 * arith::word(),
        arith::aligned(nb),
        only_grown(d, o, size),
        d.least_addr <= o.least_addr,
        0 < d.least_addr <= base,
        d.mem.feet == o.mem.feet,
        d.top == o.top,
        d.topsize == o.topsize,
        d.mem.heads@ == o.mem.heads@.insert(base, (nb + 3) as usize).insert(
            base + nb,
            (size - nb + 3) as usize,
        ),
        d.model@.chunks == o.model@.chunks.insert(base, Block { size: nb, tag: Tag::Used }).insert(
            base + nb,
            Block { size: size - nb, tag: Tag::Used },
        ),
        d.model@.segs == reach_back(o.model@.segs, j, base, size),
        j == 0 ==> d.seg == state::record_of(d.model@.segs, 0) && d.mem.records == o.mem.records,
        j > 0 ==> d.seg == o.seg && d.mem.records@ == o.mem.records@.insert(
            o.model@.segs[j].at,
            state::record_of(d.model@.segs, j),
        ),
    ensures
        d.wf(),
{
    let c = o.model@.chunks;
    let c2 = d.model@.chunks;
    let segs = o.model@.segs;
    let segs2 = d.model@.segs;
    let top = o.top as int;
    let n = segs.len() as int;
    let end = base + size;
    carve::lemma_top_there(o, end);
    assert(state::seg_ok(c, segs, top, j));
    assert forall|q: int| #[trigger] c.contains_key(q) implies q + c[q].size < base || end <= q by {
        assert(state::chunk_ok(c, o.mem.heads@, o.mem.feet@, q));
        lemma_outside(c, segs, top, base, size, q);
    }
    assert forall|q: int| #[trigger] c.contains_key(q) implies c[q].size > 0 by {
        assert(state::chunk_ok(c, o.mem.heads@, o.mem.feet@, q));
    }
    lemma_prepended_chunks(c, c2, o.mem.heads@, d.mem.heads@, o.mem.feet@, base, size, nb);
    assert(state::special_ok(c2, d.dv as int, d.dvsize as int, top, d.topsize as int));
    lemma_prepended_segs(c, c2, segs, segs2, top, j, base, size, nb);
    assert(state::marks_ok(segs2, d.mem.heads@)) by {
        assert forall|i: int| #![trigger segs2[i]] 0 <= i < n implies d.mem.heads@[state::limit(
            segs2,
            i,
        )] == if i == 0 {
            10 * arith::word()
        } else {
            3 + arith::word()
        } by {
            assert(state::limit(segs2, i) == state::limit(segs, i));
            lemma_limit_outside(o, base, size, i);
        }
    }
    totals::lemma_total_update(segs, segs2, n, j);
    lemma_records_back(o, d, j, base, size);
    assert forall|t: int, q: int| #[trigger]
        state::in_bin(o.model@.small, o.model@.large, t, q) implies d.mem.heads@[q]
        == o.mem.heads@[q] by {
        assert(c.contains_key(q));
    }
    d.lemma_bins_kept(&o);
    assert(d.binned(Set::empty())) by {
        assert forall|q: int| #[trigger]
            c2.contains_key(q) && c2[q].tag is Free && q != d.dv implies state::in_bin(
            o.model@.small,
            o.model@.large,
            c2[q].size,
            q,
        ) by {
            assert(c.contains_key(q));
        }
        assert forall|t: int, q: int| #[trigger]
            state::in_bin(o.model@.small, o.model@.large, t, q) implies c2.contains_key(q)
            && c2[q] == (Block { size: t, tag: Tag::Free }) && q != d.dv by {
            assert(c.contains_key(q));
        }
    }
}

/// The records after segment `j` has gone back.
proof fn lemma_records_back(o: Dlmalloc, d: Dlmalloc, j: int, base: int, size: int)
    requires
        o.phys_wf(),
        o.segs_wf(),
        0 <= j < o.model@.segs.len(),
        d.model@.segs == reach_back(o.model@.segs, j, base, size),
        j == 0 ==> d.seg == state::record_of(d.model@.segs, 0) && d.mem.records == o.mem.records,
        j > 0 ==> d.seg == o.seg && d.mem.records@ == o.mem.records@.insert(
            o.model@.segs[j].at,
            state::record_of(d.model@.segs, j),
        ),
    ensures
        d.records_wf(),
{
    let segs = o.model@.segs;
    let segs2 = d.model@.segs;
    assert forall|i: int| 1 <= i < segs.len() implies d.mem.records@[#[trigger] segs2[i].at]
        == state::record_of(segs2, i) by {
        assert(segs2[i].at == segs[i].at);
        assert(o.mem.records@[segs[i].at] == state::record_of(segs, i));
        if i + 1 < segs.len() {
            assert(segs2[i + 1].at == segs[i + 1].at);
        }
        if j > 0 && i != j {
            o.lemma_record(i);
            o.lemma_record(j);
            assert(i < j ==> state::segs_apart(segs[i], segs[j]));
            assert(j < i ==> state::segs_apart(segs[j], segs[i]));
        }
    }
    if j > 0 && segs.len() > 1 {
        assert(segs2[1].at == segs[1].at);
    }
}

/// Where the record of the newest segment goes when another becomes the newest: behind the top
/// chunk, or in its place if it is too small to be a free chunk.
pub open spec fn record_chunk(top: int, topsize: int) -> int {
    if topsize < 4 * arith::word() {
        top
    } else {
        top + topsize
    }
}

/// The chunks with the top chunk in a new region.
pub open spec fn move_top(
    c: Map<int, Block>,
    top: int,
    topsize: int,
    base: int,
    size: int,
) -> Map<int, Block> {
    let csp = record_chunk(top, topsize);
    let c1 = if csp != top {
        c.insert(top, Block { size: topsize, tag: Tag::Free })
    } else {
        c
    };
    c1.insert(csp, Block { size: 6 * arith::word(), tag: Tag::Record }).insert(
        base,
        Block { size: size - 10 * arith::word(), tag: Tag::Top },
    )
}

/// The segments with a new one in front.
pub open spec fn add_front(
    segs: Seq<Seg>,
    at: int,
    base: int,
    size: int,
    flags: u32,
) -> Seq<Seg> {
    seq![Seg { at: SEGMENT_ADDR as int, base, size, flags }] + segs.update(
        0,
        Seg { at, ..segs[0] },
    )
}

/// The head words of a record, of the marks behind it and of the new top chunk.
pub open spec fn heads_moved(
    heads: Map<int, usize>,
    heads2: Map<int, usize>,
    top: int,
    topsize: int,
    end: int,
    base: int,
    size: int,
) -> bool {
    let csp = record_chunk(top, topsize);
    &&& heads2[csp] == 6 * arith::word() + if csp != top { 2int } else { 3 }
    &&& heads2[csp + 6 * arith::word()] == 3 + arith::word()
    &&& heads2[base] == size - 10 * arith::word() + 1
    &&& heads2[base + size - 10 * arith::word()] == 10 * arith::word()
    &&& forall|q: int|
        !(csp <= q < end) && q != base && q != base + size - 10 * arith::word()
            ==> #[trigger] heads2[q] == heads[q]
}

/// The top chunk is in a new region, and the old one is free or the place of a record.
#[verifier::rlimit(50)]
proof fn lemma_added_chunks(
    c: Map<int, Block>,
    heads: Map<int, usize>,
    heads2: Map<int, usize>,
    feet: Map<int, usize>,
    feet2: Map<int, usize>,
    top: int,
    end: int,
    base: int,
    size: int,
)
    requires
        state::chunks_ok(c, heads, feet),
        c.contains_key(top),
        c[top].tag is Top,
        top + c[top].size + 10 * arith::word() == end,
        end <= usize::MAX,
        FIRST_ADDR <= base,
        arith::aligned(base),
        10 * arith::word() < size,
        arith::aligned(size),
        base + size <= usize::MAX,
        base + size <= top || end <= base,
        forall|q: int| #[trigger] c.contains_key(q) ==> q <= top || end <= q,
        forall|q: int| #[trigger]
            c.contains_key(q) ==> q + c[q].size + 4 * arith::word() <= base || base + size <= q,
        heads_moved(heads, heads2, top, c[top].size, end, base, size),
        feet2 == if c[top].size < 4 * arith::word() {
            feet
        } else {
            feet.insert(top + c[top].size, c[top].size as usize)
        },
    ensures
        state::chunks_ok(move_top(c, top, c[top].size, base, size), heads2, feet2),
{
    let ts = c[top].size;
    let csp = record_chunk(top, ts);
    let c2 = move_top(c, top, ts, base, size);
    assert(state::chunk_ok(c, heads, feet, top));
    sizes::lemma_aligned_sub(top, ts);
    sizes::lemma_round_behind(size);
    sizes::lemma_round_aligned(size - 10 * arith::word());
    sizes::lemma_aligned_words();
    assert(c2.contains_key(csp) && c2.contains_key(base) && c2.contains_key(top));
    assert forall|q: int| c2.contains_key(q) implies #[trigger] state::chunk_ok(
        c2,
        heads2,
        feet2,
        q,
    ) by {
        if q != base && q != csp && q != top {
            assert(c.contains_key(q));
            assert(state::chunk_ok(c, heads, feet, q));
            let n = q + c[q].size;
            if c[q].tag is Used || c[q].tag is Free {
                assert(c.contains_key(n));
                assert(c2.contains_key(n));
                assert(n == top ==> !(c[q].tag is Free));
            }
            if state::prior_free(c, feet, q) {
                assert(state::prior_free(c2, feet2, q));
            }
        }
        if q == csp && csp != top {
            assert(state::prior_free(c2, feet2, q));
        }
    }
    assert forall|p: int, q: int| #[trigger]
        c2.contains_key(p) && #[trigger] c2.contains_key(q) && p < q implies p + c2[p].size <= q by {
        if p != base && p != csp && p != top {
            assert(c.contains_key(p));
            assert(state::chunk_ok(c, heads, feet, p));
        }
        if q != base && q != csp && q != top {
            assert(c.contains_key(q));
            assert(state::chunk_ok(c, heads, feet, q));
        }
    }
}

/// There is a new segment in front, with the top chunk in it.
proof fn lemma_added_segs(
    c: Map<int, Block>,
    segs: Seq<Seg>,
    top: int,
    base: int,
    size: int,
    flags: u32,
)
    requires
        state::segs_ok(c, segs, top),
        segs.len() > 0,
        c.contains_key(top),
        c[top].tag is Top,
        c[top].size > 0,
        arith::aligned(c[top].size),
        region_ok(segs, base, size),
        forall|q: int| #[trigger]
            c.contains_key(q) ==> q <= top || segs[0].base + segs[0].size <= q,
        forall|q: int| #[trigger] c.contains_key(q) && q < top ==> q + c[q].size <= top,
        forall|q: int| #[trigger] c.contains_key(q) ==> !(base <= q < base + size) && c[q].size > 0,
        forall|q: int| #[trigger] c.contains_key(q) && c[q].tag is Top ==> q == top,
    ensures
        state::segs_ok(
            move_top(c, top, c[top].size, base, size),
            add_front(
                segs,
                record_chunk(top, c[top].size) + 2 * arith::word(),
                base,
                size,
                flags,
            ),
            base,
        ),
{
    let ts = c[top].size;
    let csp = record_chunk(top, ts);
    let at = csp + 2 * arith::word();
    let c2 = move_top(c, top, ts, base, size);
    let segs2 = add_front(segs, at, base, size, flags);
    let n = segs.len() as int;
    let g0 = Seg { at: 0, base, size, flags: 0 };
    assert(state::seg_ok(c, segs, top, 0));
    sizes::lemma_aligned_least(ts);
    assert(c2.contains_key(csp) && c2.contains_key(base) && c2.contains_key(top));
    assert(segs2[0] == (Seg { at: SEGMENT_ADDR as int, base, size, flags }));
    assert(segs2[1] == (Seg { at, ..segs[0] }));
    assert forall|i: int| 1 <= i < n implies #[trigger] segs2[i + 1] == segs[i] by {
    }
    assert(state::segs_apart(g0, segs[0]));
    assert forall|i: int| 0 <= i < segs2.len() implies #[trigger] state::seg_ok(
        c2,
        segs2,
        base,
        i,
    ) by {
        if i == 0 {
            assert(state::within(c2, segs2, 0, base));
        } else if i == 1 {
            assert(state::within(c2, segs2, 1, csp));
            assert(c2.contains_key(segs[0].base));
        } else {
            let k = i - 1;
            assert(segs2[k + 1] == segs[k]);
            assert(state::seg_ok(c, segs, top, k));
            let rec = segs[k].at - 2 * arith::word();
            assert(state::within(c, segs, k, rec));
            assert(state::segs_apart(segs[0], segs[k]));
            assert(rec != csp && rec != base && rec != top);
            assert(c2[rec] == c[rec]);
            assert(state::within(c2, segs2, i, rec));
            assert(c2.contains_key(segs[k].base));
        }
    }
    assert forall|i: int, k: int| 0 <= i < k < segs2.len() implies state::segs_apart(
        #[trigger] segs2[i],
        #[trigger] segs2[k],
    ) by {
        if i == 0 {
            assert(state::segs_apart(g0, segs[k - 1]));
        } else {
            assert(state::segs_apart(segs[i - 1], segs[k - 1]));
        }
    }
    assert forall|p: int| c2.contains_key(p) implies #[trigger] state::housed(c2, segs2, p) by {
        if p == base {
            assert(state::within(c2, segs2, 0, p));
        } else if p == csp || p == top {
            assert(state::within(c2, segs2, 1, p));
        } else {
            assert(state::housed(c, segs, p));
            let i = choose|i: int| #[trigger] state::within(c, segs, i, p);
            if i > 0 {
                assert(segs2[i + 1] == segs[i]);
            }
            assert(state::within(c2, segs2, i + 1, p));
        }
    }
    assert forall|p: int| #[trigger] c2.contains_key(p) && c2[p].tag is Record implies exists|i: int|
        1 <= i < segs2.len() && #[trigger] segs2[i].at == p + 2 * arith::word() by {
        if p == csp {
            assert(segs2[1].at == at);
        } else {
            assert(c.contains_key(p));
            let i = choose|i: int| 1 <= i < n && #[trigger] segs[i].at == p + 2 * arith::word();
            assert(segs2[i + 1].at == segs[i].at);
        }
    }
}

/// A new segment has been put in front. The old top chunk, if it is still a chunk, is free
/// and in no free list.
#[verifier::rlimit(50)]
pub(crate) proof fn lemma_added(o: Dlmalloc, d: Dlmalloc, base: int, size: int, flags: u32)
    requires
        o.wf(),
        o.top != 0,
        region_ok(o.model@.segs, base, size),
        only_grown(d, o, size),
        d.least_addr <= o.least_addr,
        0 < d.least_addr <= base,
        d.top == base,
        d.topsize == size - 10 * arith::word(),
        heads_moved(
            o.mem.heads@,
            d.mem.heads@,
            o.top as int,
            o.topsize as int,
            o.model@.segs[0].base + o.model@.segs[0].size,
            base,
            size,
        ),
        d.mem.feet@ == if o.topsize < 4 * arith::word() {
            o.mem.feet@
        } else {
            o.mem.feet@.insert(o.top + o.topsize, o.topsize)
        },
        d.model@.chunks == move_top(
            o.model@.chunks,
            o.top as int,
            o.topsize as int,
            base,
            size,
        ),
        ({
            let at = record_chunk(o.top as int, o.topsize as int) + 2 * arith::word();
            &&& d.model@.segs == add_front(o.model@.segs, at, base, size, flags)
            &&& d.mem.records@ == o.mem.records@.insert(at, o.seg)
            &&& d.seg == (crate::memory::Segment {
                base: base as usize,
                size: size as usize,
                next: at as usize,
                flags,
            })
        }),
    ensures
        d.wf_but(
            if o.topsize < 4 * arith::word() {
                Set::empty()
            } else {
                Set::empty().insert(o.top as int)
            },
        ),
{
    let c = o.model@.chunks;
    let c2 = d.model@.chunks;
    let segs = o.model@.segs;
    let segs2 = d.model@.segs;
    let top = o.top as int;
    let ts = o.topsize as int;
    let end = segs[0].base + segs[0].size;
    let csp = record_chunk(top, ts);
    let at = csp + 2 * arith::word();
    let n = segs.len() as int;
    assert(state::seg_ok(c, segs, top, 0));
    assert(state::chunk_ok(c, o.mem.heads@, o.mem.feet@, top));
    assert forall|q: int| #[trigger] c.contains_key(q) implies {
        &&& q <= top || end <= q
        &&& q + c[q].size + 4 * arith::word() <= base || base + size <= q
        &&& c[q].size > 0
        &&& q < top ==> q + c[q].size <= top
    } by {
        assert(state::chunk_ok(c, o.mem.heads@, o.mem.feet@, q));
        lemma_outside(c, segs, top, base, size, q);
        if top < q {
            assert(top + c[top].size <= q);
            assert(state::housed(c, segs, q));
            let i = choose|i: int| #[trigger] state::within(c, segs, i, q);
            if i > 0 {
                assert(state::seg_ok(c, segs, top, i));
                assert(state::segs_apart(segs[0], segs[i]));
            }
        }
    }
    assert(state::segs_apart(Seg { at: 0, base, size, flags: 0 }, segs[0]));
    lemma_added_chunks(
        c,
        o.mem.heads@,
        d.mem.heads@,
        o.mem.feet@,
        d.mem.feet@,
        top,
        end,
        base,
        size,
    );
    lemma_added_segs(c, segs, top, base, size, flags);
    assert(state::special_ok(c2, d.dv as int, d.dvsize as int, base, d.topsize as int)) by {
        assert forall|p: int| #[trigger] c2.contains_key(p) && c2[p].tag is Top implies p == base by {
            if p != base && p != csp && p != top {
                assert(c.contains_key(p));
            }
        }
        if d.dv != 0 {
            assert(c.contains_key(d.dv as int));
        }
    }
    assert(segs2[0] == (Seg { at: SEGMENT_ADDR as int, base, size, flags }));
    assert(segs2[1] == (Seg { at, ..segs[0] }));
    assert forall|i: int| 1 <= i < n implies #[trigger] segs2[i + 1] == segs[i] by {
    }
    lemma_added_marks(o, d, base, size, flags);
    lemma_added_records(o, d, base, size, flags);
    totals::lemma_total_update(segs, segs.update(0, Seg { at, ..segs[0] }), n, 0);
    totals::lemma_total_front(segs2[0], segs.update(0, Seg { at, ..segs[0] }), n);
    assert forall|i: int| 0 <= i < segs2.len() implies d.least_addr <= (#[trigger] segs2[i]).base by {
        if i > 0 {
            assert(segs2[i].base == segs[i - 1].base);
        }
    }
    assert forall|t: int, q: int| #[trigger]
        state::in_bin(o.model@.small, o.model@.large, t, q) implies d.mem.heads@[q]
        == o.mem.heads@[q] by {
        assert(c.contains_key(q));
    }
    d.lemma_bins_kept(&o);
    lemma_added_binned(o, d, base, size);
}

/// The free lists after a segment has been put in front.
proof fn lemma_added_binned(o: Dlmalloc, d: Dlmalloc, base: int, size: int)
    requires
        o.wf(),
        o.top != 0,
        d.same_bins(&o),
        d.dv == o.dv,
        o.model@.chunks.contains_key(o.top as int),
        o.model@.chunks[o.top as int].tag is Top,
        !o.model@.chunks.contains_key(base),
        o.topsize >= 4 * arith::word() ==> !o.model@.chunks.contains_key(o.top + o.topsize),
        d.model@.chunks == move_top(
            o.model@.chunks,
            o.top as int,
            o.topsize as int,
            base,
            size,
        ),
    ensures
        d.binned(
            if o.topsize < 4 * arith::word() {
                Set::empty()
            } else {
                Set::empty().insert(o.top as int)
            },
        ),
{
    let c = o.model@.chunks;
    let c2 = d.model@.chunks;
    let top = o.top as int;
    assert forall|t: int, q: int| #[trigger]
        state::in_bin(o.model@.small, o.model@.large, t, q) implies {
        &&& c2.contains_key(q)
        &&& c2[q] == (Block { size: t, tag: Tag::Free })
        &&& q != d.dv
        &&& q != top
    } by {
        assert(c.contains_key(q));
    }
    assert forall|q: int| #[trigger]
        c2.contains_key(q) && c2[q].tag is Free && q != d.dv && q != top implies state::in_bin(
        o.model@.small,
        o.model@.large,
        c2[q].size,
        q,
    ) by {
        assert(c.contains_key(q));
    }
}

/// The end marks after a segment has been put in front.
proof fn lemma_added_marks(o: Dlmalloc, d: Dlmalloc, base: int, size: int, flags: u32)
    requires
        o.wf(),
        o.top != 0,
        region_ok(o.model@.segs, base, size),
        heads_moved(
            o.mem.heads@,
            d.mem.heads@,
            o.top as int,
            o.topsize as int,
            o.model@.segs[0].base + o.model@.segs[0].size,
            base,
            size,
        ),
        d.model@.segs == add_front(
            o.model@.segs,
            record_chunk(o.top as int, o.topsize as int) + 2 * arith::word(),
            base,
            size,
            flags,
        ),
    ensures
        state::marks_ok(d.model@.segs, d.mem.heads@),
{
    let c = o.model@.chunks;
    let segs = o.model@.segs;
    let segs2 = d.model@.segs;
    let top = o.top as int;
    assert(state::seg_ok(c, segs, top, 0));
    assert forall|i: int| #![trigger segs2[i]] 0 <= i < segs2.len() implies d.mem.heads@[state::limit(
        segs2,
        i,
    )] == if i == 0 {
        10 * arith::word()
    } else {
        3 + arith::word()
    } by {
        if i >= 2 {
            let k = i - 1;
            assert(segs2[i] == segs[k]);
            lemma_limit_outside(o, base, size, k);
            assert(state::seg_ok(c, segs, top, k));
            assert(state::segs_apart(segs[0], segs[k]));
            assert(o.mem.heads@[state::limit(segs, k)] == 3 + arith::word());
            assert(state::limit(segs2, i) == state::limit(segs, k));
        }
    }
}

/// The records after a segment has been put in front.
proof fn lemma_added_records(o: Dlmalloc, d: Dlmalloc, base: int, size: int, flags: u32)
    requires
        o.wf(),
        o.top != 0,
        0 <= base <= usize::MAX,
        0 <= size <= usize::MAX,
        ({
            let at = record_chunk(o.top as int, o.topsize as int) + 2 * arith::word();
            &&& d.model@.segs == add_front(o.model@.segs, at, base, size, flags)
            &&& d.mem.records@ == o.mem.records@.insert(at, o.seg)
            &&& d.seg == (crate::memory::Segment {
                base: base as usize,
                size: size as usize,
                next: at as usize,
                flags,
            })
        }),
    ensures
        d.records_wf(),
{
    let segs = o.model@.segs;
    let segs2 = d.model@.segs;
    let at = record_chunk(o.top as int, o.topsize as int) + 2 * arith::word();
    assert(state::seg_ok(o.model@.chunks, segs, o.top as int, 0));
    assert forall|i: int| 1 <= i < segs2.len() implies d.mem.records@[#[trigger] segs2[i].at]
        == state::record_of(segs2, i) by {
        let k = i - 1;
        o.lemma_record(k);
        if i > 1 {
            assert(segs2[i] == segs[k]);
            assert(state::segs_apart(segs[0], segs[k]));
            assert(o.mem.records@[segs[k].at] == state::record_of(segs, k));
        }
        if i + 1 < segs2.len() {
            assert(segs2[i + 1] == segs[k + 1]);
        }
    }
}

} // verus!
