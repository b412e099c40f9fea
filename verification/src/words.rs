//! The words of memory that clients hold.
use vstd::prelude::*;
use crate::arith;
use crate::memory::Memory;
use crate::state;
use crate::state::{Block, Dlmalloc};

verus! {

/// The words that start at the addresses from `lo` to `hi` are the same in both.
pub open spec fn same_words(o: Memory, d: Memory, lo: int, hi: int) -> bool {
    let w = arith::word();
    &&& forall|p: int| lo <= p < hi ==> #[trigger] d.feet@[p] == o.feet@[p]
    &&& forall|p: int| lo <= p + w < hi ==> #[trigger] d.heads@[p] == o.heads@[p]
    &&& forall|p: int| lo <= p + 2 * w < hi ==> #[trigger] d.prevs@[p] == o.prevs@[p]
    &&& forall|p: int| lo <= p + 3 * w < hi ==> #[trigger] d.nexts@[p] == o.nexts@[p]
    &&& forall|p: int| lo <= p + 4 * w < hi ==> #[trigger] d.lefts@[p] == o.lefts@[p]
    &&& forall|p: int| lo <= p + 5 * w < hi ==> #[trigger] d.rights@[p] == o.rights@[p]
    &&& forall|p: int| lo <= p + 6 * w < hi ==> #[trigger] d.parents@[p] == o.parents@[p]
    &&& forall|p: int| lo <= p + 7 * w < hi ==> #[trigger] d.indices@[p] == o.indices@[p]
    &&& forall|p: int| lo <= p < hi ==> #[trigger] d.origins@[p] == o.origins@[p]
    &&& forall|p: int| lo < p + 4 * w && p < hi ==> #[trigger] d.records@[p] == o.records@[p]
}

/// Every chunk that is handed out, but `x`, stays so and keeps its size, and all words are as they
/// were in the memory that its client holds: from behind its header up to the head of the next
/// chunk.
#[verifier::opaque]
pub open spec fn kept(
    c: Map<int, Block>,
    o: Memory,
    c2: Map<int, Block>,
    d: Memory,
    x: int,
) -> bool {
    forall|q: int| #[trigger]
        c.contains_key(q) && c[q].tag is Used && q != x ==> {
            &&& c2.contains_key(q)
            &&& c2[q] == c[q]
            &&& same_words(o, d, q + 2 * arith::word(), q + c[q].size + arith::word())
        }
}

impl Dlmalloc {
    /// The words of memory.
    pub open(crate) spec fn memory(&self) -> Memory {
        self.mem
    }

    /// The memory of clients is as in `o`, but for that of chunk `x`.
    pub open(crate) spec fn keeps_but(&self, o: &Dlmalloc, x: int) -> bool {
        kept(o.model@.chunks, o.mem, self.model@.chunks, self.mem, x)
    }

    /// The memory of all clients is as in `o`. No chunk is at address zero.
    pub open(crate) spec fn keeps(&self, o: &Dlmalloc) -> bool {
        self.keeps_but(o, 0)
    }
}

/// Where nothing happens, all is kept.
pub(crate) proof fn lemma_idle(d: Dlmalloc, x: int)
    ensures
        d.keeps_but(&d, x),
{
    reveal(kept);
}

/// Where clients hold nothing, all of it is kept.
pub(crate) proof fn lemma_none(o: Dlmalloc, d: Dlmalloc)
    requires
        o.model@.chunks == Map::<int, Block>::empty(),
    ensures
        d.keeps(&o),
{
    reveal(kept);
}

/// What is kept in two steps is kept.
pub(crate) proof fn lemma_kept_on(a: Dlmalloc, b: Dlmalloc, d: Dlmalloc, x: int, y: int)
    requires
        b.keeps_but(&a, x),
        d.keeps_but(&b, y),
        y == x || !(a.model@.chunks.contains_key(y) && a.model@.chunks[y].tag is Used),
    ensures
        d.keeps_but(&a, x),
{
    reveal(kept);
}

/// All is kept first, and then all but `x`.
pub(crate) proof fn lemma_kept_to(a: Dlmalloc, b: Dlmalloc, d: Dlmalloc, x: int)
    requires
        b.keeps(&a),
        d.keeps_but(&b, x),
        a.phys_wf(),
    ensures
        d.keeps_but(&a, x),
{
    reveal(kept);
    if a.model@.chunks.contains_key(0) {
        assert(state::chunk_ok(a.model@.chunks, a.mem.heads@, a.mem.feet@, 0));
    }
}

/// All but `x` is kept first, and then all.
pub(crate) proof fn lemma_kept_from(a: Dlmalloc, b: Dlmalloc, d: Dlmalloc, x: int)
    requires
        b.keeps_but(&a, x),
        d.keeps(&b),
        a.phys_wf(),
    ensures
        d.keeps_but(&a, x),
{
    reveal(kept);
    if a.model@.chunks.contains_key(0) {
        assert(state::chunk_ok(a.model@.chunks, a.mem.heads@, a.mem.feet@, 0));
    }
}

/// The words of the free lists are outside of the memory of clients.
pub(crate) proof fn lemma_relinked(o: Dlmalloc, d: Dlmalloc, p: int)
    requires
        o.phys_wf(),
        forall|s: int, q: int| #[trigger]
            state::in_bin(o.model@.small, o.model@.large, s, q) ==> {
                &&& o.model@.chunks.contains_key(q)
                &&& o.model@.chunks[q].tag is Free
                &&& o.model@.chunks[q].size == s
            },
        o.model@.chunks.contains_key(p),
        o.model@.chunks[p].tag is Free,
        d.same_but_bins(&o),
        d.links_kept(&o, p),
    ensures
        d.keeps(&o),
{
    reveal(kept);
    let c = o.model@.chunks;
    let w = arith::word();
    assert(state::chunk_ok(c, o.mem.heads@, o.mem.feet@, p));
    assert forall|q: int| #[trigger] c.contains_key(q) && c[q].tag is Used && q
        != 0 implies same_words(o.mem, d.mem, q + 2 * w, q + c[q].size + w) by {
        assert(state::chunk_ok(c, o.mem.heads@, o.mem.feet@, q));
        assert forall|y: int|
            q - 5 * w <= y < q + c[q].size && (y == p || #[trigger] o.is_listed(y)) implies {
            &&& y <= q - 4 * w
            &&& o.mem.heads@[y] > 256 ==> y <= q - 256
        } by {
            assert(c.contains_key(y) && c[y].tag is Free);
            assert(state::chunk_ok(c, o.mem.heads@, o.mem.feet@, y));
            assert(y < q);
            assert(y + c[y].size <= q);
        }
        assert(q - 5 * w <= p < q + c[q].size ==> p <= q - 4 * w && (o.mem.heads@[p] > 256 ==> p
            <= q - 256)) by {
            assert(p < q ==> p + c[p].size <= q);
            assert(q < p ==> q + c[q].size <= p);
        }
        reveal(Dlmalloc::links_kept);
        assert forall|y: int| q + 2 * w <= y + 2 * w < q + c[q].size + w implies #[trigger]
            d.mem.prevs@[y] == o.mem.prevs@[y] by {
            let _ = o.is_listed(y);
        }
        assert forall|y: int| q + 2 * w <= y + 3 * w < q + c[q].size + w implies #[trigger]
            d.mem.nexts@[y] == o.mem.nexts@[y] by {
            let _ = o.is_listed(y);
        }
        assert forall|y: int| q + 2 * w <= y + 4 * w < q + c[q].size + w implies #[trigger]
            d.mem.lefts@[y] == o.mem.lefts@[y] by {
            let _ = o.is_listed(y);
        }
        assert forall|y: int| q + 2 * w <= y + 5 * w < q + c[q].size + w implies #[trigger]
            d.mem.rights@[y] == o.mem.rights@[y] by {
            let _ = o.is_listed(y);
        }
        assert forall|y: int| q + 2 * w <= y + 6 * w < q + c[q].size + w implies #[trigger]
            d.mem.parents@[y] == o.mem.parents@[y] by {
            let _ = o.is_listed(y);
        }
        assert forall|y: int| q + 2 * w <= y + 7 * w < q + c[q].size + w implies #[trigger]
            d.mem.indices@[y] == o.mem.indices@[y] by {
            let _ = o.is_listed(y);
        }
    }
}

/// No client but that of chunk `x` holds a chunk with memory from `b` to `e`.
pub open spec fn spares(c: Map<int, Block>, b: int, e: int, x: int) -> bool {
    forall|q: int| #[trigger]
        c.contains_key(q) && c[q].tag is Used && q != x ==> q + c[q].size <= b || e <= q
}

/// Header words and segment records from `b` to `e`, and header words from `b2` to `e2`, are
/// outside of the memory of clients, if they hold no chunk of those ranges but `x`.
pub(crate) proof fn lemma_rewritten(
    o: Dlmalloc,
    d: Dlmalloc,
    b: int,
    e: int,
    b2: int,
    e2: int,
    x: int,
)
    requires
        spares(o.model@.chunks, b, e, x),
        spares(o.model@.chunks, b2, e2, x),
        d.mem == (Memory {
            heads: d.mem.heads,
            feet: d.mem.feet,
            records: d.mem.records,
            ..o.mem
        }),
        forall|q: int| #[trigger]
            o.model@.chunks.contains_key(q) && o.model@.chunks[q].tag is Used && q != x ==> {
                &&& d.model@.chunks.contains_key(q)
                &&& d.model@.chunks[q] == o.model@.chunks[q]
            },
        forall|y: int|
            !(b <= y <= e) && !(b2 <= y <= e2) ==> #[trigger] d.mem.heads@[y] == o.mem.heads@[y],
        forall|y: int|
            !(b + arith::word() <= y <= e) && !(b2 + arith::word() <= y <= e2) ==> #[trigger]
                d.mem.feet@[y] == o.mem.feet@[y],
        forall|y: int|
            !(b + 2 * arith::word() <= y <= e - 4 * arith::word()) ==> #[trigger]
                d.mem.records@[y] == o.mem.records@[y],
    ensures
        d.keeps_but(&o, x),
{
    reveal(kept);
}

/// The word in front of an aligned address is in the memory of its own client.
pub(crate) proof fn lemma_origin_set(o: Dlmalloc, d: Dlmalloc, p: int, y: int)
    requires
        o.phys_wf(),
        o.model@.chunks.contains_key(p),
        p + 2 * arith::word() <= y <= p + o.model@.chunks[p].size,
        d.model@.chunks == o.model@.chunks,
        d.mem == (Memory { origins: d.mem.origins, ..o.mem }),
        forall|z: int| z != y ==> #[trigger] d.mem.origins@[z] == o.mem.origins@[z],
    ensures
        d.keeps_but(&o, p),
{
    reveal(kept);
}

} // verus!
