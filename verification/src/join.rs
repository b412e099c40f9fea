//! Joining a run of chunks to one.
use vstd::prelude::*;
use crate::arith;
use crate::carve;
use crate::phys;
use crate::segments;
use crate::state;
use crate::state::{Block, Dlmalloc, Tag};

verus! {

/// The chunks from `a` on for `size` bytes become one.
pub open spec fn join(c: Map<int, Block>, a: int, size: int, tag: Tag) -> Map<int, Block> {
    Map::new(
        |p: int| p == a || (c.contains_key(p) && !(a <= p < a + size)),
        |p: int|
            if p == a {
                Block { size, tag }
            } else {
                c[p]
            },
    )
}

/// The free chunk `q` ends where chunk `p` starts.
pub open spec fn is_prior(c: Map<int, Block>, q: int, p: int) -> bool {
    c.contains_key(q) && c[q].tag is Free && q + c[q].size == p
}

/// A free chunk ends where chunk `p` starts.
pub open spec fn has_prior(c: Map<int, Block>, p: int) -> bool {
    exists|q: int| is_prior(c, q, p)
}

/// The free chunk that ends where chunk `p` starts.
pub open spec fn prior(c: Map<int, Block>, p: int) -> int {
    choose|q: int| is_prior(c, q, p)
}

/// What the header of a chunk in use says of the chunk in front.
pub proof fn lemma_prior(c: Map<int, Block>, heads: Map<int, usize>, feet: Map<int, usize>, p: int)
    requires
        state::chunks_ok(c, heads, feet),
        c.contains_key(p),
        state::inuse(c[p]),
    ensures
        has_prior(c, p) <==> heads[p] == c[p].size + 2,
        has_prior(c, p) ==> {
            let q = p - feet[p];
            &&& prior(c, p) == q
            &&& is_prior(c, q, p)
            &&& c[q].size == feet[p]
        },
        !has_prior(c, p) ==> heads[p] == c[p].size + 3 && phys::no_prior(c, p),
{
    assert(state::chunk_ok(c, heads, feet, p));
    if heads[p] == c[p].size + 2 {
        assert(state::prior_free(c, feet, p));
        let q = p - feet[p];
        assert(is_prior(c, q, p));
        let r = prior(c, p);
        assert(is_prior(c, r, p));
        assert(state::chunk_ok(c, heads, feet, q));
        assert(state::chunk_ok(c, heads, feet, r));
    } else {
        phys::lemma_no_prior(c, heads, feet, p);
    }
}

/// Nothing but chunks, their headers and the special chunks differs.
pub(crate) open spec fn only_joined(d: Dlmalloc, o: Dlmalloc) -> bool {
    &&& d.same_bins(&o)
    &&& d.mem.records == o.mem.records
    &&& d.mem.origins == o.mem.origins
    &&& d.seg == o.seg
    &&& d.footprint == o.footprint
    &&& d.max_footprint == o.max_footprint
    &&& d.least_addr == o.least_addr
    &&& d.model@.segs == o.model@.segs
}

/// A run of chunks in no free list becomes one.
pub(crate) proof fn lemma_joined(
    o: Dlmalloc,
    d: Dlmalloc,
    loose: Set<int>,
    loose2: Set<int>,
    i: int,
    a: int,
    size: int,
    tag: Tag,
)
    requires
        o.wf_but(loose),
        only_joined(d, o),
        o.model@.chunks.contains_key(a),
        d.model@.chunks == join(o.model@.chunks, a, size, tag),
        phys::no_prior(o.model@.chunks, a),
        arith::aligned(size),
        o.model@.chunks[a].size <= size,
        a + size <= usize::MAX,
        d.mem.heads@[a] == size + 1,
        tag is Free || tag is Top,
        tag is Free ==> {
            let n = a + size;
            let c = o.model@.chunks;
            &&& c[a].size >= 4 * arith::word()
            &&& c.contains_key(n)
            &&& state::inuse(c[n])
            &&& d.mem.heads@[n] == c[n].size + 2
            &&& d.mem.feet@[n] == size
            &&& forall|q: int| q != n ==> #[trigger] d.mem.feet@[q] == o.mem.feet@[q]
            &&& d.top == o.top
            &&& d.topsize == o.topsize
            &&& !(a <= o.top < a + size)
            &&& forall|q: int|
                q != a && q != n ==> #[trigger] d.mem.heads@[q] == o.mem.heads@[q]
        },
        tag is Top ==> {
            &&& d.mem.feet@ == o.mem.feet@
            &&& d.top == a
            &&& d.topsize == size
            &&& o.top != 0
            &&& i == 0
            &&& a + size == o.top + o.topsize
            &&& a <= o.top
            &&& forall|q: int| q != a ==> #[trigger] d.mem.heads@[q] == o.mem.heads@[q]
        },
        state::within(o.model@.chunks, o.model@.segs, i, a),
        a + size <= state::limit(o.model@.segs, i),
        forall|q: int| #[trigger]
            o.model@.chunks.contains_key(q) && a <= q < a + size ==> {
                &&& !(o.model@.chunks[q].tag is Record)
                &&& o.model@.chunks[q].tag is Free ==> q == o.dv || loose.contains(q)
            },
        forall|q: int| #[trigger]
            d.model@.chunks.contains_key(q) && q != a ==> ((q == o.dv || loose.contains(q)) <==> (q
                == d.dv || loose2.contains(q))),
        tag is Free ==> a == d.dv || loose2.contains(a),
        d.dv == 0 <==> d.dvsize == 0,
        d.dv != 0 ==> if d.dv == a {
            tag is Free && d.dvsize == size
        } else {
            d.dv == o.dv && d.dvsize == o.dvsize && !(a <= o.dv < a + size)
        },
    ensures
        d.wf_but(loose2),
{
    let c = o.model@.chunks;
    let c2 = d.model@.chunks;
    let segs = o.model@.segs;
    let top = o.top as int;
    assert(phys::merged(c, c2, a, size, tag));
    carve::lemma_top_there(o, a);
    assert(state::chunk_ok(c, o.mem.heads@, o.mem.feet@, a));
    assert(state::chunk_ok(c, o.mem.heads@, o.mem.feet@, top));
    assert(state::seg_ok(c, segs, top, 0));
    assert forall|q: int| #[trigger] c.contains_key(q) && a <= q < a + size implies q + c[q].size
        <= a + size by {
        if tag is Top && q > top {
            assert(top + c[top].size <= q);
        }
    }
    if tag is Top {
        assert(!c.contains_key(a + size)) by {
            if c.contains_key(a + size) {
                assert(state::chunk_ok(c, o.mem.heads@, o.mem.feet@, a + size));
                segments::lemma_limit(c, segs, top, a + size, 0);
            }
        }
    }
    phys::lemma_merge(
        c,
        c2,
        o.mem.heads@,
        d.mem.heads@,
        o.mem.feet@,
        d.mem.feet@,
        a,
        size,
        tag,
    );
    if tag is Free {
        assert(c2.contains_key(top));
    }
    segments::lemma_segs_merge(c, c2, segs, top, d.top as int, i, a, size, tag);
    assert(state::marks_ok(segs, d.mem.heads@)) by {
        assert forall|j: int| #![trigger segs[j]] 0 <= j < segs.len() implies d.mem.heads@[state::limit(
            segs,
            j,
        )] == if j == 0 {
            10 * arith::word()
        } else {
            3 + arith::word()
        } by {
            segments::lemma_limit(c, segs, top, a, j);
            let n = a + size;
            if tag is Free {
                assert(state::chunk_ok(c, o.mem.heads@, o.mem.feet@, n));
                segments::lemma_limit(c, segs, top, n, j);
            }
            assert(d.mem.heads@[state::limit(segs, j)] == o.mem.heads@[state::limit(segs, j)]);
        }
    }
    assert forall|t: int, q: int| #[trigger]
        state::in_bin(o.model@.small, o.model@.large, t, q) implies d.mem.heads@[q]
        == o.mem.heads@[q] by {
        assert(c.contains_key(q));
    }
    d.lemma_bins_kept(&o);
    assert(d.binned(loose2)) by {
        let small = o.model@.small;
        let large = o.model@.large;
        assert forall|t: int, q: int| #[trigger] state::in_bin(small, large, t, q) implies {
            &&& c2.contains_key(q)
            &&& c2[q] == (Block { size: t, tag: Tag::Free })
            &&& q != d.dv
            &&& !loose2.contains(q)
        } by {
            assert(c.contains_key(q));
            assert(c2.contains_key(q) && q != a);
        }
        assert forall|q: int| #[trigger]
            c2.contains_key(q) && c2[q].tag is Free && q != d.dv && !loose2.contains(
                q,
            ) implies state::in_bin(small, large, c2[q].size, q) by {
            assert(c.contains_key(q));
        }
    }
    assert(d.phys_wf()) by {
        if d.dv != 0 && d.dv != a {
            assert(c2.contains_key(d.dv as int));
        }
        assert forall|p: int| #[trigger] c2.contains_key(p) && c2[p].tag is Top implies p == d.top by {
            if p != a {
                assert(c.contains_key(p));
            }
        }
    }
}

} // verus!
