//! The blocks that clients hold.
use vstd::prelude::*;
use crate::arith;
use crate::grow;
use crate::join;
use crate::malloc;
use crate::malloc::Outcome;
use crate::regions;
use crate::release::Reply;
use crate::search;
use crate::state;
use crate::state::{Block, Dlmalloc, Heap, Tag};

verus! {

/// The chunks that are handed out, with their sizes.
pub open spec fn live(c: Map<int, Block>) -> Map<int, int> {
    Map::new(|p: int| c.contains_key(p) && c[p].tag is Used, |p: int| c[p].size)
}

impl Heap {
    /// The chunks that clients hold, with their sizes.
    pub open spec fn live(self) -> Map<int, int> {
        live(self.chunks)
    }
}

/// The blocks that clients hold do not overlap: each starts at a multiple of two words, has at
/// least four, and ends where or before the next one starts.
pub proof fn lemma_live_apart(d: Dlmalloc)
    requires
        d.wf(),
    ensures
        forall|p: int| #[trigger]
            d@.live().contains_key(p) ==> {
                &&& arith::aligned(p)
                &&& d@.live()[p] >= 4 * arith::word()
                &&& p + d@.live()[p] <= usize::MAX
            },
        forall|p: int, q: int| #[trigger]
            d@.live().contains_key(p) && #[trigger] d@.live().contains_key(q) && p < q ==> p
                + d@.live()[p] <= q,
{
    let c = d.model@.chunks;
    assert forall|p: int| #[trigger] d@.live().contains_key(p) implies {
        &&& arith::aligned(p)
        &&& d@.live()[p] >= 4 * arith::word()
        &&& p + d@.live()[p] <= usize::MAX
    } by {
        assert(state::chunk_ok(c, d.mem.heads@, d.mem.feet@, p));
    }
    assert forall|p: int, q: int| #[trigger]
        d@.live().contains_key(p) && #[trigger] d@.live().contains_key(q) && p < q implies p
        + d@.live()[p] <= q by {
        assert(c.contains_key(p) && c.contains_key(q));
    }
}

/// Each block that a client holds lies in a segment.
pub proof fn lemma_live_housed(d: Dlmalloc, p: int)
    requires
        d.wf(),
        d@.live().contains_key(p),
    ensures
        exists|i: int|
            #![trigger d@.segs[i]]
            0 <= i < d@.segs.len() && d@.segs[i].base <= p && p + d@.live()[p] <= d@.segs[i].base
                + d@.segs[i].size,
{
    let c = d.model@.chunks;
    let segs = d.model@.segs;
    assert(state::housed(c, segs, p));
    let i = choose|i: int| #[trigger] state::within(c, segs, i, p);
    assert(state::chunk_ok(c, d.mem.heads@, d.mem.feet@, p));
    crate::segments::lemma_limit(c, segs, d.top as int, p, i);
    assert(d@.segs[i] == segs[i]);
}

/// A free chunk is handed out in part or as a whole.
proof fn lemma_cut_live(d: Dlmalloc, p: int, nb: int)
    requires
        d.phys_wf(),
        d.model@.chunks.contains_key(p),
        d.model@.chunks[p].tag is Free,
        4 * arith::word() <= nb <= d.model@.chunks[p].size,
    ensures
        ({
            let c2 = d@.cut(p, nb).chunks;
            &&& live(c2) == d@.live().insert(p, c2[p].size)
            &&& nb <= c2[p].size
            &&& !d@.live().contains_key(p)
            &&& arith::aligned(p)
            &&& 0 < p
            &&& p + c2[p].size <= usize::MAX
        }),
{
    let c = d.model@.chunks;
    let c2 = d@.cut(p, nb).chunks;
    assert(state::chunk_ok(c, d.mem.heads@, d.mem.feet@, p));
    if c[p].size - nb >= 4 * arith::word() {
        assert(!c.contains_key(p + nb));
    }
    assert(live(c2) =~= d@.live().insert(p, c2[p].size));
}

/// The top chunk is handed out in part.
proof fn lemma_cut_top_live(h: Heap, nb: int)
    requires
        h.chunks.contains_key(h.top),
        h.chunks[h.top] == (Block { size: h.topsize, tag: Tag::Top }),
        0 < nb < h.topsize,
        !h.chunks.contains_key(h.top + nb),
    ensures
        h.cut_top(nb).live() == h.live().insert(h.top, nb),
        !h.live().contains_key(h.top),
{
    assert(h.cut_top(nb).live() =~= h.live().insert(h.top, nb));
}

/// A list of free chunks holds free chunks of its size.
proof fn lemma_listed_free(d: Dlmalloc, s: int, p: int)
    requires
        d.wf(),
        s < 256 ==> d.model@.small.contains_key(s) && d.model@.small[s].contains(p),
        s >= 256 ==> d.model@.large.contains_key(s) && d.model@.large[s].contains(p),
    ensures
        d.model@.chunks.contains_key(p),
        d.model@.chunks[p] == (Block { size: s, tag: Tag::Free }),
        p != d.dv,
{
    assert(state::in_bin(d.model@.small, d.model@.large, s, p));
}

/// What memory at hand gives for a request comes to the blocks that clients hold and leaves the
/// others as they were: it is in none of them, starts at a multiple of two words, and the chunk
/// holds the request and one word.
pub proof fn lemma_malloc_live(d: Dlmalloc, size: int)
    requires
        d.wf(),
        0 <= size <= usize::MAX,
    ensures
        ({
            let (h, r) = d@.malloc(size);
            match r {
                Outcome::Ready(m) => {
                    let p = m - 2 * arith::word();
                    &&& h.live() == d@.live().insert(p, h.live()[p])
                    &&& h.live().contains_key(p)
                    &&& !d@.live().contains_key(p)
                    &&& arith::aligned(p)
                    &&& 0 < p
                    &&& size + arith::word() <= malloc::request(size) <= h.live()[p]
                    &&& p + h.live()[p] <= usize::MAX
                },
                Outcome::Refused => h == d@ && size >= malloc::max_request(),
                Outcome::Wanted(nb) => h == d@ && nb == malloc::request(size),
            }
        }),
{
    let h = d@;
    let nb = malloc::request(size);
    malloc::lemma_request(size);
    if size <= 256 - 3 * arith::word() {
        if h.small.contains_key(nb) {
            let p = h.small[nb].last();
            assert(state::list_ok(h.small[nb], nb, d.mem.heads@));
            lemma_listed_free(d, nb, p);
            lemma_cut_live(d, p, nb);
        } else if h.small.contains_key(nb + 8) {
            let p = h.small[nb + 8].last();
            assert(state::list_ok(h.small[nb + 8], nb + 8, d.mem.heads@));
            lemma_listed_free(d, nb + 8, p);
            lemma_cut_live(d, p, nb + 8);
        } else if nb > h.dvsize && search::some_fit(h.small, nb) {
            let t = choose|t: int| #[trigger] h.small.contains_key(t) && nb <= t;
            search::lemma_some_least(h.small, nb, t);
            let s = search::least_fit(h.small, nb);
            let p = h.small[s].last();
            assert(state::list_ok(h.small[s], s, d.mem.heads@));
            lemma_listed_free(d, s, p);
            lemma_cut_live(d, p, nb);
        } else if nb > h.dvsize && search::some_fit(h.large, 0) {
            let t = choose|t: int| #[trigger] h.large.contains_key(t) && 0 <= t;
            search::lemma_some_least(h.large, 0, t);
            let s = search::least_fit(h.large, 0);
            let p = h.large[s][0];
            assert(state::list_ok(h.large[s], s, d.mem.heads@));
            assert(h.large[s].contains(p));
            lemma_listed_free(d, s, p);
            lemma_cut_live(d, p, nb);
        } else {
            lemma_malloc_rest_live(d, nb);
        }
    } else if size >= malloc::max_request() {
    } else if h.suits_large(nb) {
        let t = choose|t: int| #[trigger] h.large.contains_key(t) && nb <= t;
        search::lemma_some_least(h.large, nb, t);
        let s = search::least_fit(h.large, nb);
        let p = h.large[s][0];
        assert(state::list_ok(h.large[s], s, d.mem.heads@));
        assert(h.large[s].contains(p));
        lemma_listed_free(d, s, p);
        lemma_cut_live(d, p, nb);
    } else {
        lemma_malloc_rest_live(d, nb);
    }
}

/// What the designated victim or the top chunk gives.
proof fn lemma_malloc_rest_live(d: Dlmalloc, nb: int)
    requires
        d.wf(),
        4 * arith::word() <= nb <= usize::MAX,
    ensures
        ({
            let (h, r) = d@.malloc_rest(nb);
            match r {
                Outcome::Ready(m) => {
                    let p = m - 2 * arith::word();
                    &&& h.live() == d@.live().insert(p, h.live()[p])
                    &&& h.live().contains_key(p)
                    &&& !d@.live().contains_key(p)
                    &&& arith::aligned(p)
                    &&& 0 < p
                    &&& nb <= h.live()[p]
                    &&& p + h.live()[p] <= usize::MAX
                },
                Outcome::Refused => false,
                Outcome::Wanted(n) => h == d@ && n == nb,
            }
        }),
{
    let h = d@;
    let c = h.chunks;
    if nb <= h.dvsize {
        lemma_cut_live(d, h.dv, nb);
    } else if nb < h.topsize {
        assert(state::chunk_ok(c, d.mem.heads@, d.mem.feet@, h.top));
        assert(!c.contains_key(h.top + nb));
        lemma_cut_top_live(h, nb);
    }
}

/// A request that memory from the system serves comes to the blocks that clients hold and leaves
/// the others as they were. If it does not serve it, all of them are as they were.
pub proof fn lemma_grow_live(d: Dlmalloc, nb: int, base: int, size: int, flags: u32)
    requires
        d.wf(),
        4 * arith::word() <= nb,
        arith::aligned(nb),
        d@.can_take(nb, base, size, flags),
    ensures
        ({
            let (h, m) = d@.grow(nb, base, size, flags);
            let p = m - 2 * arith::word();
            if m == 0 {
                h.live() == d@.live()
            } else {
                &&& h.live() == d@.live().insert(p, nb)
                &&& !d@.live().contains_key(p)
                &&& arith::aligned(p)
                &&& 0 < p
            }
        }),
{
    let h = d@;
    let c = h.chunks;
    let segs = h.segs;
    assert forall|q: int| #[trigger] c.contains_key(q) implies c[q].size > 0 && (q + c[q].size
        < base || base + size <= q) by {
        assert(state::chunk_ok(c, d.mem.heads@, d.mem.feet@, q));
        regions::lemma_outside(c, segs, h.top, base, size, q);
    }
    let j = grow::seg_at(segs, base + size);
    if h.top == 0 {
        regions::lemma_nothing(d);
        let g = h.start(base, size, flags);
        assert(g.live() =~= h.live());
        if nb < g.topsize {
            lemma_cut_top_live(g, nb);
        }
    } else {
        grow::lemma_newest(d);
        if h.extends(base, flags) {
            let g = h.extend(size);
            assert(g.live() =~= h.live());
            if nb < g.topsize {
                lemma_behind_top(d, h.top + nb);
                lemma_cut_top_live(g, nb);
            }
        } else if h.prepends(base, size, flags) {
            lemma_prepend_live(d, j, base, size, nb);
        } else {
            let g = h.add(base, size, flags);
            let csp = regions::record_chunk(h.top, h.topsize);
            assert(csp != h.top ==> !c.contains_key(csp)) by {
                if csp != h.top {
                    lemma_behind_top(d, csp);
                }
            }
            assert(g.live() =~= h.live());
            if nb < g.topsize {
                lemma_cut_top_live(g, nb);
            }
        }
    }
}

/// A region of as many bytes as the system is asked for serves the request.
pub proof fn lemma_grow_served(d: Dlmalloc, nb: int, base: int, size: int, flags: u32)
    requires
        d.wf(),
        4 * arith::word() <= nb,
        grow::wanted(nb) <= size,
        regions::region_ok(d@.segs, base, size),
    ensures
        d@.can_take(nb, base, size, flags),
        d@.grow(nb, base, size, flags).1 != 0,
{
    if d@.top != 0 {
        grow::lemma_newest(d);
    }
}

/// No chunk starts behind the top chunk before the newest segment ends, or within it.
pub(crate) proof fn lemma_behind_top(d: Dlmalloc, q: int)
    requires
        d.wf(),
        d.top != 0,
        d.top < q,
    ensures
        d.model@.chunks.contains_key(q) ==> d.model@.segs[0].base + d.model@.segs[0].size <= q,
{
    let c = d.model@.chunks;
    let segs = d.model@.segs;
    let top = d.top as int;
    if c.contains_key(q) {
        assert(state::chunk_ok(c, d.mem.heads@, d.mem.feet@, q));
        assert(state::seg_ok(c, segs, top, 0));
        assert(state::housed(c, segs, q));
        let i = choose|i: int| #[trigger] state::within(c, segs, i, q);
        if i > 0 {
            assert(state::seg_ok(c, segs, top, i));
            assert(state::segs_apart(segs[0], segs[i]));
        }
    }
}

/// A region in front of a segment gives one block.
proof fn lemma_prepend_live(d: Dlmalloc, j: int, base: int, size: int, nb: int)
    requires
        d.wf(),
        d.top != 0,
        4 * arith::word() <= nb < size,
        regions::region_ok(d@.segs, base, size),
        grow::starts_at(d@.segs, j, base + size),
        forall|q: int| #[trigger]
            d@.chunks.contains_key(q) ==> d@.chunks[q].size > 0 && (q + d@.chunks[q].size < base
                || base + size <= q),
    ensures
        d@.prepend(j, base, size, nb).live() == d@.live().insert(base, nb),
        !d@.live().contains_key(base),
{
    let h = d@;
    let c = h.chunks;
    let n = base + size;
    let q = base + nb;
    let g = h.reach(j, base, size, nb);
    let t = g.run_size(q, size - nb);
    let c2 = h.prepend(j, base, size, nb).chunks;
    assert(state::seg_ok(c, h.segs, h.top, j));
    assert(c.contains_key(n));
    assert(g.chunks[n] == c[n]);
    let tag = if n == h.top { Tag::Top } else { Tag::Free };
    assert(c2 == join::join(g.chunks, q, t, tag));
    assert forall|x: int| #[trigger] c.contains_key(x) && n <= x < q + t implies x == n && !(
    c[n].tag is Used) by {
        if x != n {
            assert(n + c[n].size <= x);
        }
    }
    assert(live(c2) =~= h.live().insert(base, nb));
}

/// Taking memory back takes its block from those that clients hold, and leaves the others as
/// they were.
pub proof fn lemma_free_live(d: Dlmalloc, mem: int)
    requires
        d.wf(),
        d@.live().contains_key(mem - 2 * arith::word()),
    ensures
        d@.free(mem).0.live() == d@.live().remove(mem - 2 * arith::word()),
{
    let h = d@;
    let c = h.chunks;
    let p = mem - 2 * arith::word();
    assert(state::chunk_ok(c, d.mem.heads@, d.mem.feet@, p));
    join::lemma_prior(c, d.mem.heads@, d.mem.feet@, p);
    let a = if join::has_prior(c, p) { join::prior(c, p) } else { p };
    let n = p + c[p].size;
    let size = n - a;
    let t = h.run_size(a, size);
    let c2 = h.free(mem).0.chunks;
    let tag = if n == h.top { Tag::Top } else { Tag::Free };
    assert(c2 == join::join(c, a, t, tag));
    assert(state::chunk_ok(c, d.mem.heads@, d.mem.feet@, n));
    assert(n == h.top ==> c[n].tag is Top);
    assert forall|x: int| #[trigger] c.contains_key(x) && a <= x < a + t && x != p implies !(
    c[x].tag is Used) by {
        assert(state::chunk_ok(c, d.mem.heads@, d.mem.feet@, x));
        if x < p {
            assert(x != a ==> a + c[a].size <= x);
        } else if x != n {
            assert(p + c[p].size <= x);
            assert(n + c[n].size <= x);
        }
    }
    assert(live(c2) =~= h.live().remove(p));
}

/// The words in front of segment records are handed out to no client.
spec fn records_kept(h: Heap) -> bool {
    forall|k: int|
        1 <= k < h.segs.len() ==> !h.live().contains_key(
            #[trigger] h.segs[k].at - 2 * arith::word(),
        )
}

proof fn lemma_release_from_live(h: Heap, k: int, replies: Seq<Reply>)
    requires
        records_kept(h),
        1 <= k,
    ensures
        h.release_from(k, replies).0.live() == h.live(),
    decreases replies.len(),
{
    if k < h.segs.len() && replies.len() > 0 {
        let rest = replies.drop_first();
        if replies[0] is Kept || !h.unused(k) {
            lemma_release_from_live(h, k + 1, rest);
        } else if replies[0] is Failed {
            assert(h.rebin(k).live() =~= h.live());
            lemma_release_from_live(h.rebin(k), k + 1, rest);
        } else {
            let g = h.drop_seg(k);
            let s = h.segs[k];
            assert(!h.live().contains_key(s.at - 2 * arith::word()));
            assert(g.live() =~= h.live());
            assert(records_kept(g)) by {
                assert forall|i: int| 1 <= i < g.segs.len() implies !g.live().contains_key(
                    #[trigger] g.segs[i].at - 2 * arith::word(),
                ) by {
                    let j = if i < k { i } else { i + 1 };
                    assert(g.segs[i] == h.segs[j]);
                    assert(!h.live().contains_key(h.segs[j].at - 2 * arith::word()));
                }
            }
            lemma_release_from_live(g, k, rest);
        }
    }
}

proof fn lemma_records_kept(d: Dlmalloc)
    requires
        d.wf(),
    ensures
        records_kept(d@),
{
    let segs = d@.segs;
    assert forall|k: int| 1 <= k < segs.len() implies !d@.live().contains_key(
        #[trigger] segs[k].at - 2 * arith::word(),
    ) by {
        assert(state::seg_ok(d@.chunks, segs, d@.top, k));
    }
}

/// Giving segments back to the system leaves the blocks that clients hold as they were.
pub proof fn lemma_release_live(d: Dlmalloc, replies: Seq<Reply>)
    requires
        d.wf(),
    ensures
        d@.release(replies).0.live() == d@.live(),
{
    lemma_records_kept(d);
    lemma_release_from_live(d@, 1, replies);
}

/// Giving the end of the top chunk and segments back to the system leaves the blocks that clients
/// hold as they were.
pub proof fn lemma_trim_live(d: Dlmalloc, pad: int, trimmed: bool, replies: Seq<Reply>)
    requires
        d.wf(),
    ensures
        d@.trim(pad, trimmed, replies).0.live() == d@.live(),
{
    let h = d@;
    lemma_records_kept(d);
    if h.trims(pad) {
        let extra = if trimmed && h.can_trim(pad) { h.extra(pad) } else { 0 };
        let g = if extra != 0 { h.shrink(extra) } else { h };
        assert(g.live() =~= h.live());
        assert(records_kept(g)) by {
            assert forall|k: int| 1 <= k < g.segs.len() implies !g.live().contains_key(
                #[trigger] g.segs[k].at - 2 * arith::word(),
            ) by {
                assert(g.segs[k] == h.segs[k]);
            }
        }
        lemma_release_from_live(g, 1, replies);
    }
}

} // verus!
