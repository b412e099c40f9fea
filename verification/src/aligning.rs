//! What a request with an alignment gets, and what taking it back does.
use vstd::prelude::*;
use crate::arith;
use crate::grow;
use crate::malloc::Outcome;
use crate::regions;
use crate::requests::{AllocErr, Grant, Layout};
use crate::state;
use crate::state::{Dlmalloc, Heap};

verus! {

/// Which layouts can be asked for: the alignment is a power of two, and if chunks do not have it
/// anyway, size and alignment together are a number.
pub proof fn lemma_layout(layout: Layout)
    ensures
        layout.is_plain() <==> layout.align <= 2 * arith::word(),
        layout.is_valid() <==> (exists|n: nat|
            n < usize::BITS && layout.align == #[trigger] vstd::arithmetic::power2::pow2(n)) && (
        layout.align > 2 * arith::word() ==> layout.size + layout.align <= usize::MAX),
        layout.amount() == if layout.align <= 2 * arith::word() {
            layout.size as int
        } else {
            layout.size + layout.align
        },
{
}

/// The address that a client gets of a block at `m`, and the state after it. One that chunks are
/// aligned to anyway is `m` itself. Any other is the first multiple of the alignment behind `m`,
/// and the word in front of it tells `m`.
pub open spec fn placed(h: Heap, m: int, layout: Layout, g: Heap, a: int) -> bool {
    if layout.align <= 2 * arith::word() {
        g == h && a == m
    } else {
        &&& a % (layout.align as int) == 0
        &&& m < a <= m + layout.align
        &&& g == (Heap { origins: h.origins.insert(a - arith::word(), m as usize), ..h })
    }
}

/// A request with an alignment asks for its size, and for as much more as the alignment if chunks
/// do not have that anyway. It is refused or wants memory as such a request does, and then changes
/// nothing. What is served is placed.
pub proof fn lemma_allocate(d: Dlmalloc, layout: Layout)
    requires
        d.wf(),
        layout.is_valid(),
    ensures
        ({
            let h = d@;
            let n = if layout.align <= 2 * arith::word() {
                layout.size as int
            } else {
                layout.size + layout.align
            };
            let (e, o) = h.malloc(n);
            let (g, r) = h.allocate(layout);
            match o {
                Outcome::Ready(m) => {
                    &&& r is Ok
                    &&& r->Ok_0 is Ready
                    &&& placed(e, m as int, layout, g, r->Ok_0->Ready_0 as int)
                },
                Outcome::Refused => g == h && r == Err::<Grant, AllocErr>(
                    AllocErr::Exhausted { request: layout },
                ),
                Outcome::Wanted(nb) => g == h && r == Ok::<Grant, AllocErr>(Grant::Wanted(nb)),
            }
        }),
{
    let h = d@;
    let n = layout.amount();
    let (e, o) = h.malloc(n);
    crate::serving::lemma_malloc_served(d, n);
    if let Outcome::Ready(m) = o {
        crate::malloc::lemma_request(n);
        crate::serving::lemma_malloc_choice(d, n, 0);
        lemma_block_end(d, m - 2 * arith::word());
        lemma_place(d, e, m as int, layout);
    }
}

/// Behind every chunk there are four words more.
proof fn lemma_block_end(d: Dlmalloc, p: int)
    requires
        d.wf(),
        d@.chunks.contains_key(p),
    ensures
        0 < p,
        p + d@.chunks[p].size + 4 * arith::word() <= usize::MAX,
{
    let h = d@;
    assert(state::chunk_ok(h.chunks, d.mem.heads@, d.mem.feet@, p));
    assert(state::housed(h.chunks, h.segs, p));
    let i = choose|i: int| #[trigger] state::within(h.chunks, h.segs, i, p);
    assert(state::seg_ok(h.chunks, h.segs, h.top, i));
    crate::segments::lemma_limit(h.chunks, h.segs, h.top, p, i);
}

/// A block has its place.
proof fn lemma_place(d: Dlmalloc, e: Heap, m: int, layout: Layout)
    requires
        d.wf(),
        layout.is_valid(),
        0 < m,
        m + layout.align <= usize::MAX || layout.is_plain(),
        m <= usize::MAX,
    ensures
        ({
            let (g, a) = e.place(m, layout);
            &&& placed(e, m, layout, g, a)
            &&& 0 <= a <= usize::MAX
        }),
{
    if !layout.is_plain() {
        let x = layout.align as int;
        vstd::arithmetic::div_mod::lemma_mod_bound(m, x);
        vstd::arithmetic::div_mod::lemma_fundamental_div_mod(m, x);
        let q = m / x;
        let a = crate::requests::aligned_behind(m, x);
        assert(a == (q + 1) * x) by (nonlinear_arith)
            requires
                a == m + (x - m % x),
                m == x * q + m % x,
        ;
        vstd::arithmetic::div_mod::lemma_mod_multiples_basic(q + 1, x);
    }
}

/// Memory from the system serves a request that wants it as it serves a chunk of that size, and
/// what it serves is placed. Without memory, or with too little, the request is refused; in the
/// first case nothing changes.
pub proof fn lemma_grant(
    d: Dlmalloc,
    layout: Layout,
    nb: int,
    base: int,
    size: int,
    flags: u32,
)
    requires
        d.wf(),
        layout.is_valid(),
        nb == crate::malloc::request(layout.amount()),
        base != 0 ==> d@.can_take(nb, base, size, flags),
    ensures
        ({
            let h = d@;
            let (g, r) = h.grant(layout, nb, base, size, flags);
            let (e, m) = h.grow(nb, base, size, flags);
            if base == 0 {
                g == h && r == Err::<usize, AllocErr>(AllocErr::Exhausted { request: layout })
            } else if m == 0 {
                g == e && r == Err::<usize, AllocErr>(AllocErr::Exhausted { request: layout })
            } else {
                r is Ok && placed(e, m, layout, g, r->Ok_0 as int)
            }
        }),
{
    let h = d@;
    if base != 0 {
        let (e, m) = h.grow(nb, base, size, flags);
        crate::malloc::lemma_request(layout.amount());
        if m != 0 {
            crate::live::lemma_grow_live(d, nb, base, size, flags);
            lemma_region_room(d, nb, base, size, flags);
            lemma_place(d, e, m, layout);
        }
    }
}

/// What a region serves lies in a segment.
proof fn lemma_region_room(d: Dlmalloc, nb: int, base: int, size: int, flags: u32)
    requires
        d.wf(),
        4 * arith::word() <= nb,
        d@.can_take(nb, base, size, flags),
        d@.grow(nb, base, size, flags).1 != 0,
    ensures
        0 < d@.grow(nb, base, size, flags).1,
        d@.grow(nb, base, size, flags).1 + nb <= usize::MAX,
{
    let h = d@;
    if h.top != 0 {
        grow::lemma_newest(d);
        assert(state::seg_ok(h.chunks, h.segs, h.top, 0));
        assert(state::chunk_ok(h.chunks, d.mem.heads@, d.mem.feet@, h.top));
        if h.prepends(base, size, flags) {
            let j = grow::seg_at(h.segs, base + size);
            assert(state::seg_ok(h.chunks, h.segs, h.top, j));
        }
    }
}

/// Which regions can be taken for a chunk of `nb` bytes: one that becomes the front of a segment has
/// room for it and for another chunk.
pub proof fn lemma_can_take(d: Dlmalloc, nb: int, base: int, size: int, flags: u32)
    requires
        d.wf(),
    ensures
        ({
            let h = d@;
            let s = h.segs;
            let behind = s[0].base + s[0].size == base && s[0].flags % 2 == 0 && s[0].flags / 2
                == flags;
            let before = exists|j: int|
                0 <= j < s.len() && (#[trigger] s[j]).base == base + size && s[j].flags % 2 == 0
                    && s[j].flags / 2 == flags;
            h.can_take(nb, base, size, flags) <==> regions::region_ok(s, base, size) && (h.top != 0
                && !behind && before ==> nb + 4 * arith::word() <= size)
        }),
{
    let h = d@;
    let s = h.segs;
    if exists|j: int|
        0 <= j < s.len() && (#[trigger] s[j]).base == base + size && s[j].flags % 2 == 0
            && s[j].flags / 2 == flags {
        let j = choose|j: int|
            0 <= j < s.len() && (#[trigger] s[j]).base == base + size && s[j].flags % 2 == 0
                && s[j].flags / 2 == flags;
        assert(grow::starts_at(s, j, base + size));
        let k = grow::seg_at(s, base + size);
        assert(grow::starts_at(s, k, base + size));
        assert(state::seg_ok(h.chunks, s, h.top, j));
        assert(state::seg_ok(h.chunks, s, h.top, k));
        if j < k {
            assert(state::segs_apart(s[j], s[k]));
        }
        if k < j {
            assert(state::segs_apart(s[k], s[j]));
        }
        assert(j == k);
    }
    if h.prepends(base, size, flags) {
        let k = grow::seg_at(s, base + size);
        assert(s[k].base == base + size);
    }
}

/// Taking back the memory at `ptr` takes back the block that starts there, or, with an alignment
/// that chunks do not have anyway, the one that the word in front of it tells.
pub proof fn lemma_dealloc(h: Heap, ptr: int, layout: Layout)
    ensures
        h.dealloc(ptr, layout) == h.free(
            if layout.align <= 2 * arith::word() {
                ptr
            } else {
                h.origins[ptr - arith::word()] as int
            },
        ),
{
}

} // verus!
