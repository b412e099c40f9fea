//! What holds of the allocator as a whole.
use vstd::prelude::*;
use crate::arith;
use crate::grow;
use crate::live;
use crate::malloc;
use crate::regions;
use crate::release::Reply;
use crate::requests;
use crate::requests::Layout;
use crate::search;
use crate::state;
use crate::state::{Dlmalloc, Heap};
use crate::words;

verus! {

/// Behind a free chunk there is a chunk in use: free chunks are always joined.
pub proof fn lemma_no_two_free(d: Dlmalloc, p: int)
    requires
        d.wf(),
        d@.chunks.contains_key(p),
        d@.chunks[p].tag is Free,
    ensures
        ({
            let n = p + d@.chunks[p].size;
            d@.chunks.contains_key(n) && state::inuse(d@.chunks[n])
        }),
{
    assert(state::chunk_ok(d.model@.chunks, d.mem.heads@, d.mem.feet@, p));
}

/// Chunks follow each other without a gap: where a chunk ends, another starts, unless it is the
/// top chunk or holds the record of a segment.
pub proof fn lemma_no_gap(d: Dlmalloc, p: int)
    requires
        d.wf(),
        d@.chunks.contains_key(p),
    ensures
        d@.chunks[p].tag is Used || d@.chunks[p].tag is Free ==> d@.chunks.contains_key(
            p + d@.chunks[p].size,
        ),
{
    assert(state::chunk_ok(d.model@.chunks, d.mem.heads@, d.mem.feet@, p));
}

/// A chunk is in a free list exactly if it is free and not the designated victim, and then it is
/// in the list for its size alone.
pub proof fn lemma_free_lists(d: Dlmalloc, s: int, p: int)
    requires
        d.wf(),
    ensures
        state::in_bin(d@.small, d@.large, s, p) <==> d@.chunks.contains_key(p)
            && d@.chunks[p].tag is Free && d@.chunks[p].size == s && p != d@.dv,
{
    if d@.chunks.contains_key(p) && d@.chunks[p].tag is Free && d@.chunks[p].size == s && p
        != d@.dv {
        assert(state::in_bin(d@.small, d@.large, d@.chunks[p].size, p));
    }
}

/// The footprint is what the segments make up together, and never more than the largest so far.
pub proof fn lemma_footprint_total(d: Dlmalloc)
    requires
        d.wf(),
    ensures
        d@.footprint == state::total(d@.segs, d@.segs.len() as int),
        d@.footprint <= d@.max_footprint,
{
}

/// Segments do not overlap.
pub proof fn lemma_segments_apart(d: Dlmalloc, i: int, j: int)
    requires
        d.wf(),
        0 <= i < j < d@.segs.len(),
    ensures
        state::segs_apart(d@.segs[i], d@.segs[j]),
{
    let segs = d.model@.segs;
    assert(state::segs_apart(segs[i], segs[j]));
}

/// What a call keeps: a block that a client holds, and that the call does not take back, is held
/// after it with the same size, and no word is changed in the memory that the client may write.
pub proof fn lemma_contents_kept(d: Dlmalloc, e: Dlmalloc, x: int, p: int)
    requires
        e.keeps_but(&d, x),
        d@.live().contains_key(p),
        p != x,
    ensures
        e@.live().contains_key(p),
        e@.live()[p] == d@.live()[p],
        words::same_words(
            d.memory(),
            e.memory(),
            p + 2 * arith::word(),
            p + d@.live()[p] + arith::word(),
        ),
{
    reveal(words::kept);
    assert(d.model@.chunks.contains_key(p));
}

/// The memory that a request gets overlaps with no block that a client held before it, and what is
/// in those blocks stays as it was.
pub proof fn lemma_malloc_apart(d: Dlmalloc, e: Dlmalloc, size: int, p: int)
    requires
        d.wf(),
        e.wf(),
        0 <= size <= usize::MAX,
        e@ == d@.malloc(size).0,
        d@.malloc(size).1 is Ready,
        e.keeps(&d),
        d@.live().contains_key(p),
    ensures
        ({
            let w = arith::word();
            let m = d@.malloc(size).1->Ready_0 as int;
            let end = p + d@.live()[p] + w;
            &&& m + size <= p + 2 * w || end <= m
            &&& e@.live().contains_key(p)
            &&& e@.live()[p] == d@.live()[p]
            &&& words::same_words(d.memory(), e.memory(), p + 2 * w, end)
        }),
{
    let q = d@.malloc(size).1->Ready_0 - 2 * arith::word();
    live::lemma_malloc_live(d, size);
    live::lemma_live_apart(d);
    live::lemma_live_apart(e);
    assert(state::chunk_ok(d.model@.chunks, d.mem.heads@, d.mem.feet@, p));
    lemma_contents_kept(d, e, 0, p);
    assert(e@.live().contains_key(q) && e@.live().contains_key(p));
}

/// Taking back what a request has just got gives the blocks that clients held before it.
pub proof fn lemma_free_undoes_malloc(d: Dlmalloc, e: Dlmalloc, size: int)
    requires
        d.wf(),
        e.wf(),
        0 <= size <= usize::MAX,
        e@ == d@.malloc(size).0,
        d@.malloc(size).1 is Ready,
    ensures
        ({
            let m = d@.malloc(size).1->Ready_0 as int;
            &&& e@.live().contains_key(m - 2 * arith::word())
            &&& e@.free(m).0.live() == d@.live()
        }),
{
    let m = d@.malloc(size).1->Ready_0 as int;
    live::lemma_malloc_live(d, size);
    live::lemma_free_live(e, m);
    assert(e@.free(m).0.live() =~= d@.live());
}

/// A request that is not too large for any memory is served without the system exactly if a chunk
/// in the free lists or the designated victim is large enough, or if the top chunk is larger.
pub proof fn lemma_served(d: Dlmalloc, size: int)
    requires
        d.wf(),
        0 <= size < malloc::max_request(),
    ensures
        d@.malloc(size).1 is Ready <==> {
            let nb = malloc::request(size);
            ||| search::some_fit(d@.small, nb)
            ||| search::some_fit(d@.large, nb)
            ||| nb <= d@.dvsize
            ||| nb < d@.topsize
        },
{
    let h = d@;
    let nb = malloc::request(size);
    malloc::lemma_request(size);
    assert(h.small.contains_key(nb) ==> search::some_fit(h.small, nb));
    assert(h.small.contains_key(nb + 8) ==> search::some_fit(h.small, nb));
    if size <= 256 - 3 * arith::word() {
        if search::some_fit(h.large, 0) {
            let t = choose|t: int| #[trigger] h.large.contains_key(t) && 0 <= t;
            assert(h.large.contains_key(t) && nb <= t);
        }
    } else if search::some_fit(h.small, nb) {
        let t = choose|t: int| #[trigger] h.small.contains_key(t) && nb <= t;
        assert(t < 256);
    }
}

/// A request is refused exactly if it is too large for any memory.
pub proof fn lemma_refused(d: Dlmalloc, size: int)
    requires
        d.wf(),
        0 <= size <= usize::MAX,
    ensures
        d@.malloc(size).1 is Refused <==> size >= malloc::max_request(),
{
    live::lemma_malloc_live(d, size);
}

/// The address for a client has the alignment that it asked for, lies in the block that its
/// origin names, and the block holds all bytes behind it that the client asked for.
pub proof fn lemma_placed(d: Dlmalloc, m: int, layout: Layout)
    requires
        d.wf(),
        layout.is_valid(),
        d@.live().contains_key(m - 2 * arith::word()),
        layout.amount() + arith::word() <= d@.live()[m - 2 * arith::word()],
    ensures
        ({
            let (h, a) = d@.place(m, layout);
            let p = m - 2 * arith::word();
            &&& h.live() == d@.live()
            &&& a % layout.align as int == 0
            &&& h.origin(a, layout) == m
            &&& m <= a
            &&& !layout.is_plain() ==> m + arith::word() <= a
            &&& a + layout.size <= p + d@.live()[p] + arith::word()
        }),
{
    let p = m - 2 * arith::word();
    assert(state::chunk_ok(d.model@.chunks, d.mem.heads@, d.mem.feet@, p));
    crate::sizes::lemma_round_behind(p);
    if layout.is_plain() {
        lemma_plain(layout.align as int, m);
    } else {
        requests::lemma_aligned_behind(m, layout.align as int);
    }
    assert(d@.place(m, layout).0.live() =~= d@.live());
}

/// A multiple of two words is a multiple of every lesser power of two.
proof fn lemma_plain(align: int, m: int)
    requires
        arith::is_power_of_two(align),
        align <= 2 * arith::word(),
        arith::aligned(m),
    ensures
        m % align == 0,
{
    let n = choose|n: nat| n < usize::BITS && align == #[trigger] vstd::arithmetic::power2::pow2(n);
    vstd::arithmetic::power2::lemma2_to64();
    reveal(arith::aligned);
    if n > 4 {
        vstd::arithmetic::power2::lemma_pow2_strictly_increases(4, n);
    }
    assert(align == 1 || align == 2 || align == 4 || align == 8 || align == 16);
    assert(align == 16 ==> usize::BITS == 64);
}

/// A request that is served from memory at hand gets a block of its own, at an address as it asked
/// for.
pub proof fn lemma_allocate_served(d: Dlmalloc, e: Dlmalloc, layout: Layout)
    requires
        d.wf(),
        e.wf(),
        layout.is_valid(),
        e@ == d@.malloc(layout.amount()).0,
        d@.malloc(layout.amount()).1 is Ready,
    ensures
        ({
            let (h, r) = d@.allocate(layout);
            let a = r->Ok_0->Ready_0 as int;
            let p = h.origin(a, layout) - 2 * arith::word();
            &&& r is Ok
            &&& r->Ok_0 is Ready
            &&& !d@.live().contains_key(p)
            &&& h.live() == d@.live().insert(p, h.live()[p])
            &&& a % layout.align as int == 0
            &&& p + 2 * arith::word() <= a
            &&& a + layout.size <= p + h.live()[p] + arith::word()
        }),
{
    let size = layout.amount();
    let m = d@.malloc(size).1->Ready_0 as int;
    live::lemma_malloc_live(d, size);
    lemma_placed(e, m, layout);
    requests::lemma_block_room(e, m - 2 * arith::word());
    if !layout.is_plain() {
        requests::lemma_aligned_behind(m, layout.align as int);
    }
}

/// A request that memory from the system serves gets a block of its own, at an address as it asked
/// for.
pub proof fn lemma_grant_served(
    d: Dlmalloc,
    e: Dlmalloc,
    layout: Layout,
    base: int,
    size: int,
    flags: u32,
)
    requires
        d.wf(),
        e.wf(),
        layout.is_valid(),
        base != 0,
        grow::wanted(malloc::request(layout.amount())) <= size,
        regions::region_ok(d@.segs, base, size),
        e@ == d@.grow(malloc::request(layout.amount()), base, size, flags).0,
    ensures
        ({
            let nb = malloc::request(layout.amount());
            let (h, r) = d@.grant(layout, nb, base, size, flags);
            let a = r->Ok_0 as int;
            let p = h.origin(a, layout) - 2 * arith::word();
            &&& r is Ok
            &&& !d@.live().contains_key(p)
            &&& h.live() == d@.live().insert(p, nb)
            &&& a % layout.align as int == 0
            &&& p + 2 * arith::word() <= a
            &&& a + layout.size <= p + nb + arith::word()
        }),
{
    let nb = malloc::request(layout.amount());
    let m = d@.grow(nb, base, size, flags).1;
    malloc::lemma_request(layout.amount());
    live::lemma_grow_served(d, nb, base, size, flags);
    live::lemma_grow_live(d, nb, base, size, flags);
    lemma_placed(e, m, layout);
    requests::lemma_block_room(e, m - 2 * arith::word());
    if !layout.is_plain() {
        requests::lemma_aligned_behind(m, layout.align as int);
    }
}

/// Taking back an address right after it was handed out gives the blocks that clients held before.
pub proof fn lemma_dealloc_undoes_place(d: Dlmalloc, e: Dlmalloc, m: int, layout: Layout)
    requires
        d.wf(),
        e.wf(),
        layout.is_valid(),
        d@.live().contains_key(m - 2 * arith::word()),
        layout.amount() + arith::word() <= d@.live()[m - 2 * arith::word()],
        e@ == d@.place(m, layout).0,
    ensures
        e@.dealloc(d@.place(m, layout).1, layout).0.live() == d@.live().remove(
            m - 2 * arith::word(),
        ),
{
    lemma_placed(d, m, layout);
    live::lemma_free_live(e, m);
}

/// The address of an aligned block keeps its origin when another block gets an address.
pub proof fn lemma_origin_kept(d: Dlmalloc, m: int, layout: Layout, a: int, other: Layout)
    requires
        d.wf(),
        layout.is_valid(),
        other.is_valid(),
        d@.live().contains_key(m - 2 * arith::word()),
        layout.amount() + arith::word() <= d@.live()[m - 2 * arith::word()],
        ({
            let q = d@.origin(a, other) - 2 * arith::word();
            &&& d@.live().contains_key(q)
            &&& q != m - 2 * arith::word()
            &&& q + 2 * arith::word() <= a
            &&& !other.is_plain() ==> q + 3 * arith::word() <= a
            &&& a + other.size <= q + d@.live()[q] + arith::word()
        }),
    ensures
        d@.place(m, layout).0.origin(a, other) == d@.origin(a, other),
{
    let p = m - 2 * arith::word();
    let q = d@.origin(a, other) - 2 * arith::word();
    live::lemma_live_apart(d);
    assert(state::chunk_ok(d.model@.chunks, d.mem.heads@, d.mem.feet@, p));
    assert(d@.live().contains_key(p) && d@.live().contains_key(q));
    crate::sizes::lemma_round_behind(p);
    if !layout.is_plain() {
        requests::lemma_aligned_behind(m, layout.align as int);
        assert(p < q ==> p + d@.live()[p] <= q);
        assert(q < p ==> q + d@.live()[q] <= p);
    }
}

/// The addresses that clients hold keep their origins whatever else is requested, taken back,
/// taken from the system or given back to it.
pub proof fn lemma_origins_kept(
    h: Heap,
    size: int,
    mem: int,
    nb: int,
    base: int,
    len: int,
    flags: u32,
    pad: int,
    trimmed: bool,
    replies: Seq<Reply>,
)
    ensures
        h.malloc(size).0.origins == h.origins,
        h.free(mem).0.origins == h.origins,
        h.grow(nb, base, len, flags).0.origins == h.origins,
        h.release(replies).0.origins == h.origins,
        h.trim(pad, trimmed, replies).0.origins == h.origins,
{
    lemma_release_origins(h, 1, replies);
    lemma_release_origins(h.shrink(h.extra(pad)), 1, replies);
}

proof fn lemma_release_origins(h: Heap, k: int, replies: Seq<Reply>)
    ensures
        h.release_from(k, replies).0.origins == h.origins,
    decreases replies.len(),
{
    if k < h.segs.len() && replies.len() > 0 {
        let rest = replies.drop_first();
        lemma_release_origins(h, k + 1, rest);
        lemma_release_origins(h.rebin(k), k + 1, rest);
        lemma_release_origins(h.drop_seg(k), k, rest);
    }
}

/// Memory that is freed never uses up the checks without saying that segments can be released.
pub proof fn lemma_checks_left(d: Dlmalloc, mem: int)
    requires
        d.wf(),
        d@.live().contains_key(mem - 2 * arith::word()),
        d@.release_checks > 0,
    ensures
        ({
            let (h, r) = d@.free(mem);
            h.release_checks > 0 <==> !(r is Release)
        }),
{
}

/// After segments were released, large chunks can be freed again.
pub proof fn lemma_checks_reset(d: Dlmalloc, replies: Seq<Reply>)
    requires
        d.wf(),
    ensures
        d@.release(replies).0.release_checks >= 4095,
{
}

/// Requests, regions from the system and trimming never use up the checks, and the first region
/// makes them available: memory can be freed from then on, but for the time between a free that
/// makes a release due and that release.
pub proof fn lemma_checks_kept(
    d: Dlmalloc,
    size: int,
    nb: int,
    base: int,
    len: int,
    flags: u32,
    m: int,
    layout: Layout,
    pad: int,
    trimmed: bool,
    replies: Seq<Reply>,
)
    requires
        d.wf(),
    ensures
        d@.malloc(size).0.release_checks == d@.release_checks,
        d@.place(m, layout).0.release_checks == d@.release_checks,
        d@.top == 0 ==> d@.grow(nb, base, len, flags).0.release_checks == 4095,
        d@.top != 0 ==> d@.grow(nb, base, len, flags).0.release_checks == d@.release_checks,
        d@.trims(pad) ==> d@.trim(pad, trimmed, replies).0.release_checks >= 4095,
        !d@.trims(pad) ==> d@.trim(pad, trimmed, replies).0.release_checks == d@.release_checks,
{
}

/// The least address is that of the first region, and every region lowers it to its own if that is
/// less.
pub proof fn lemma_least_addr(d: Dlmalloc, nb: int, base: int, size: int, flags: u32)
    requires
        d.wf(),
        regions::region_ok(d@.segs, base, size),
    ensures
        d@.top == 0 <==> d@.least_addr == 0,
        d@.grow(nb, base, size, flags).0.least_addr == if d@.top == 0 || base < d@.least_addr {
            base
        } else {
            d@.least_addr
        },
{
    if d@.top != 0 {
        grow::lemma_newest(d);
        assert(d.least_addr <= d.model@.segs[0].base);
    }
}

/// Memory comes back to be trimmed only if the top chunk has outgrown the threshold.
pub proof fn lemma_trim_due(d: Dlmalloc, mem: int)
    requires
        d.wf(),
        d@.live().contains_key(mem - 2 * arith::word()),
    ensures
        ({
            let (h, r) = d@.free(mem);
            r is Trim ==> h.topsize > h.trim_check
        }),
{
}

/// The blocks that clients hold are the chunks in use that are no segment records, each with the
/// size of its chunk.
pub proof fn lemma_live_blocks(h: Heap, p: int)
    ensures
        h.live().contains_key(p) <==> h.chunks.contains_key(p) && h.chunks[p].tag is Used,
        h.live().contains_key(p) ==> h.live()[p] == h.chunks[p].size,
{
}

/// A segment record tells the segment, and where the next record is, or zero in the last one.
pub proof fn lemma_record_tells(d: Dlmalloc, i: int)
    requires
        d.wf(),
        0 <= i < d@.segs.len(),
    ensures
        ({
            let g = d@.segs[i];
            let s = state::record_of(d@.segs, i);
            &&& s.base == g.base
            &&& s.size == g.size
            &&& s.flags == g.flags
            &&& s.next == if i + 1 < d@.segs.len() {
                d@.segs[i + 1].at
            } else {
                0
            }
        }),
{
    d.lemma_record(i);
}

/// An allocator that has got no memory has nothing.
pub proof fn lemma_fresh(origins: Map<int, usize>)
    ensures
        ({
            let h = Heap::fresh(origins);
            &&& h.chunks == Map::<int, state::Block>::empty()
            &&& h.small == Map::<int, Seq<int>>::empty()
            &&& h.large == Map::<int, Seq<int>>::empty()
            &&& h.segs.len() == 0
            &&& (h.dv, h.dvsize) == (0int, 0int)
            &&& (h.top, h.topsize) == (0int, 0int)
            &&& (h.footprint, h.max_footprint) == (0int, 0int)
            &&& (h.trim_check, h.release_checks) == (0int, 0int)
            &&& h.least_addr == 0
            &&& h.origins == origins
        }),
{
}

/// What a call keeps, word by word: at no address from two words behind the start of a block that a
/// client holds to one word behind its end does a word change, whatever kind of word it is taken
/// for.
pub proof fn lemma_words_kept(d: Dlmalloc, e: Dlmalloc, x: int, p: int, y: int)
    requires
        e.keeps_but(&d, x),
        d@.live().contains_key(p),
        p != x,
        p + 2 * arith::word() <= y < p + d@.live()[p] + arith::word(),
    ensures
        ({
            let w = arith::word();
            let o = d.memory();
            let n = e.memory();
            &&& n.feet@[y] == o.feet@[y]
            &&& n.heads@[y - w] == o.heads@[y - w]
            &&& n.prevs@[y - 2 * w] == o.prevs@[y - 2 * w]
            &&& n.nexts@[y - 3 * w] == o.nexts@[y - 3 * w]
            &&& n.lefts@[y - 4 * w] == o.lefts@[y - 4 * w]
            &&& n.rights@[y - 5 * w] == o.rights@[y - 5 * w]
            &&& n.parents@[y - 6 * w] == o.parents@[y - 6 * w]
            &&& n.indices@[y - 7 * w] == o.indices@[y - 7 * w]
            &&& n.origins@[y] == o.origins@[y]
            &&& forall|r: int|
                y - 4 * w < r <= y ==> #[trigger] n.records@[r] == o.records@[r]
        }),
{
    lemma_contents_kept(d, e, x, p);
}

} // verus!
