//! How chunks are split and joined.
use vstd::prelude::*;
use crate::arith;
use crate::sizes;
use crate::state;
use crate::state::{Block, Tag};

verus! {

/// Both parts of a chunk are multiples of two words.
proof fn lemma_cut_aligned(p: int, s: int, nb: int)
    requires
        arith::aligned(p),
        arith::aligned(s),
        arith::aligned(nb),
    ensures
        arith::aligned(p + nb),
        arith::aligned(s - nb),
        nb % 8 == 0,
        (s - nb) % 8 == 0,
{
    sizes::lemma_aligned_sub(p, nb);
    sizes::lemma_aligned_sub(s, nb);
    sizes::lemma_round_aligned(nb);
    sizes::lemma_round_aligned(s - nb);
}

/// The free chunk `p` is handed out as a whole.
pub proof fn lemma_use_whole(
    c: Map<int, Block>,
    heads: Map<int, usize>,
    heads2: Map<int, usize>,
    feet: Map<int, usize>,
    p: int,
)
    requires
        state::chunks_ok(c, heads, feet),
        c.contains_key(p),
        c[p].tag is Free,
        heads2[p] == c[p].size + 3,
        heads2[p + c[p].size] == c[p + c[p].size].size + 3,
        forall|q: int| q != p && q != p + c[p].size ==> #[trigger] heads2[q] == heads[q],
    ensures
        state::chunks_ok(c.insert(p, Block { size: c[p].size, tag: Tag::Used }), heads2, feet),
{
    let s = c[p].size;
    let n = p + s;
    let c2 = c.insert(p, Block { size: s, tag: Tag::Used });
    assert(state::chunk_ok(c, heads, feet, p));
    assert forall|q: int| c2.contains_key(q) implies #[trigger] state::chunk_ok(
        c2,
        heads2,
        feet,
        q,
    ) by {
        assert(state::chunk_ok(c, heads, feet, q));
        if q != p && state::inuse(c[q]) && heads[q] == c[q].size + 2 {
            assert(state::prior_free(c, feet, q));
            if q - feet[q] == p {
                assert(q == n);
            }
        }
    }
}

/// The free chunk `p` is handed out in part: the first `nb` bytes.
pub proof fn lemma_use_part(
    c: Map<int, Block>,
    heads: Map<int, usize>,
    heads2: Map<int, usize>,
    feet: Map<int, usize>,
    feet2: Map<int, usize>,
    p: int,
    nb: int,
)
    requires
        state::chunks_ok(c, heads, feet),
        c.contains_key(p),
        c[p].tag is Free,
        arith::aligned(nb),
        4 * arith::word() <= nb,
        4 * arith::word() <= c[p].size - nb,
        heads2[p] == nb + 3,
        heads2[p + nb] == c[p].size - nb + 1,
        forall|q: int| q != p && q != p + nb ==> #[trigger] heads2[q] == heads[q],
        feet2[p + c[p].size] == c[p].size - nb,
        forall|q: int| q != p + c[p].size ==> #[trigger] feet2[q] == feet[q],
    ensures
        !c.contains_key(p + nb),
        state::chunks_ok(
            c.insert(p, Block { size: nb, tag: Tag::Used }).insert(
                p + nb,
                Block { size: c[p].size - nb, tag: Tag::Free },
            ),
            heads2,
            feet2,
        ),
{
    let s = c[p].size;
    let n = p + s;
    let r = p + nb;
    let c2 = c.insert(p, Block { size: nb, tag: Tag::Used }).insert(
        r,
        Block { size: s - nb, tag: Tag::Free },
    );
    assert(state::chunk_ok(c, heads, feet, p));
    lemma_cut_aligned(p, s, nb);
    assert(c.contains_key(n));
    assert(!c.contains_key(r));
    assert forall|q: int| c2.contains_key(q) implies #[trigger] state::chunk_ok(
        c2,
        heads2,
        feet2,
        q,
    ) by {
        if q != p && q != r {
            assert(state::chunk_ok(c, heads, feet, q));
            if state::inuse(c[q]) && heads[q] == c[q].size + 2 {
                assert(state::prior_free(c, feet, q));
                if q - feet[q] == p {
                    assert(q == n);
                }
            }
        }
    }
}

/// The first `nb` bytes of the top chunk are handed out.
pub proof fn lemma_use_top(
    c: Map<int, Block>,
    heads: Map<int, usize>,
    heads2: Map<int, usize>,
    feet: Map<int, usize>,
    p: int,
    nb: int,
)
    requires
        state::chunks_ok(c, heads, feet),
        c.contains_key(p),
        c[p].tag is Top,
        arith::aligned(nb),
        4 * arith::word() <= nb < c[p].size,
        heads2[p] == nb + 3,
        heads2[p + nb] == c[p].size - nb + 1,
        forall|q: int| q != p && q != p + nb ==> #[trigger] heads2[q] == heads[q],
    ensures
        !c.contains_key(p + nb),
        state::chunks_ok(
            c.insert(p, Block { size: nb, tag: Tag::Used }).insert(
                p + nb,
                Block { size: c[p].size - nb, tag: Tag::Top },
            ),
            heads2,
            feet,
        ),
{
    let s = c[p].size;
    let r = p + nb;
    let c2 = c.insert(p, Block { size: nb, tag: Tag::Used }).insert(
        r,
        Block { size: s - nb, tag: Tag::Top },
    );
    assert(state::chunk_ok(c, heads, feet, p));
    lemma_cut_aligned(p, s, nb);
    assert(!c.contains_key(r));
    assert forall|q: int| c2.contains_key(q) implies #[trigger] state::chunk_ok(
        c2,
        heads2,
        feet,
        q,
    ) by {
        if q != p && q != r {
            assert(state::chunk_ok(c, heads, feet, q));
        }
    }
}

/// No free chunk ends where `p` starts.
pub open spec fn no_prior(c: Map<int, Block>, p: int) -> bool {
    forall|q: int| #[trigger] c.contains_key(q) && c[q].tag is Free ==> q + c[q].size != p
}

/// A chunk that is not marked as behind a free one is not.
pub proof fn lemma_no_prior(
    c: Map<int, Block>,
    heads: Map<int, usize>,
    feet: Map<int, usize>,
    p: int,
)
    requires
        state::chunks_ok(c, heads, feet),
        c.contains_key(p),
        heads[p] != c[p].size + 2,
    ensures
        no_prior(c, p),
{
    assert forall|q: int| #[trigger] c.contains_key(q) && c[q].tag is Free implies q + c[q].size
        != p by {
        assert(state::chunk_ok(c, heads, feet, q));
    }
}

/// The chunks from `a` on for `size` bytes become one, which is free or the top chunk.
pub open spec fn merged(
    c: Map<int, Block>,
    c2: Map<int, Block>,
    a: int,
    size: int,
    tag: Tag,
) -> bool {
    &&& forall|p: int| #[trigger]
        c2.contains_key(p) <==> p == a || (c.contains_key(p) && !(a <= p < a + size))
    &&& c2[a] == Block { size, tag }
    &&& forall|p: int| #[trigger] c2.contains_key(p) && p != a ==> c2[p] == c[p]
}

pub proof fn lemma_merge(
    c: Map<int, Block>,
    c2: Map<int, Block>,
    heads: Map<int, usize>,
    heads2: Map<int, usize>,
    feet: Map<int, usize>,
    feet2: Map<int, usize>,
    a: int,
    size: int,
    tag: Tag,
)
    requires
        state::chunks_ok(c, heads, feet),
        c.contains_key(a),
        merged(c, c2, a, size, tag),
        no_prior(c, a),
        arith::aligned(size),
        c[a].size <= size,
        a + size <= usize::MAX,
        heads2[a] == size + 1,
        tag is Free || tag is Top,
        tag is Free ==> {
            let n = a + size;
            &&& c[a].size >= 4 * arith::word()
            &&& c.contains_key(n)
            &&& state::inuse(c[n])
            &&& heads2[n] == c[n].size + 2
            &&& feet2[n] == size
            &&& forall|q: int| q != n ==> #[trigger] feet2[q] == feet[q]
        },
        tag is Top ==> {
            &&& !c.contains_key(a + size)
            &&& feet2 == feet
            &&& forall|q: int| #[trigger]
                c.contains_key(q) && a <= q < a + size ==> q + c[q].size <= a + size
        },
        forall|q: int| !(a <= q <= a + size) ==> #[trigger] heads2[q] == heads[q],
    ensures
        state::chunks_ok(c2, heads2, feet2),
{
    let n = a + size;
    assert(state::chunk_ok(c, heads, feet, a));
    sizes::lemma_round_aligned(size);
    assert forall|q: int| c2.contains_key(q) implies #[trigger] state::chunk_ok(
        c2,
        heads2,
        feet2,
        q,
    ) by {
        if q == a {
            assert(tag is Free ==> c2.contains_key(n));
        } else {
            assert(c.contains_key(q));
            assert(state::chunk_ok(c, heads, feet, q));
            let m = q + c[q].size;
            if c[q].tag is Used || c[q].tag is Free {
                assert(c.contains_key(m));
                assert(c2.contains_key(m));
            }
            if state::inuse(c[q]) && heads[q] == c[q].size + 2 && q != n {
                let f = q - feet[q];
                assert(state::prior_free(c, feet, q));
                assert(c.contains_key(f) && c.contains_key(a));
                assert(f + c[f].size == q);
                if q > n {
                    assert(tag is Free ==> f >= n);
                    assert(tag is Top ==> !(a <= f < n));
                }
                assert(f != a);
                assert(c2.contains_key(f));
                assert(state::prior_free(c2, feet2, q));
            }
            if q == n {
                assert(c2.contains_key(a));
                assert(state::prior_free(c2, feet2, q));
            }
        }
    }
    assert forall|p: int, q: int| #[trigger]
        c2.contains_key(p) && #[trigger] c2.contains_key(q) && p < q implies p + c2[p].size <= q by {
    }
}

} // verus!
