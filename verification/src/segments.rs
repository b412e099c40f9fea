//! Where chunks lie in the segments.
use vstd::prelude::*;
use crate::arith;
use crate::phys;
use crate::state;
use crate::state::{Block, Seg, Tag};

verus! {

/// A chunk lies in the segment of the chunk that it borders on.
pub proof fn lemma_same_seg(c: Map<int, Block>, segs: Seq<Seg>, top: int, i: int, a: int, x: int)
    requires
        state::segs_ok(c, segs, top),
        state::within(c, segs, i, a),
        c.contains_key(x),
        c[x].size > 0,
        c[a].size > 0,
        a <= x <= a + c[a].size,
    ensures
        state::within(c, segs, i, x),
{
    assert(state::housed(c, segs, x));
    let j = choose|j: int| #[trigger] state::within(c, segs, j, x);
    assert(state::seg_ok(c, segs, top, i));
    assert(state::seg_ok(c, segs, top, j));
    if i < j {
        assert(state::segs_apart(segs[i], segs[j]));
    }
    if j < i {
        assert(state::segs_apart(segs[j], segs[i]));
    }
}

/// A chunk of the same size takes the place of a free one.
pub proof fn lemma_segs_use_whole(c: Map<int, Block>, segs: Seq<Seg>, top: int, p: int)
    requires
        state::segs_ok(c, segs, top),
        c.contains_key(p),
        c[p].tag is Free,
        top != 0 ==> c.contains_key(top) && c[top].tag is Top,
    ensures
        state::segs_ok(c.insert(p, Block { size: c[p].size, tag: Tag::Used }), segs, top),
{
    let c2 = c.insert(p, Block { size: c[p].size, tag: Tag::Used });
    assert forall|i: int| 0 <= i < segs.len() implies #[trigger] state::seg_ok(
        c2,
        segs,
        top,
        i,
    ) by {
        assert(state::seg_ok(c, segs, top, i));
        assert(c2[top].size == c[top].size);
    }
    assert forall|q: int| c2.contains_key(q) implies #[trigger] state::housed(c2, segs, q) by {
        assert(state::housed(c, segs, q));
        let j = choose|j: int| #[trigger] state::within(c, segs, j, q);
        assert(state::within(c2, segs, j, q));
    }
}

/// A chunk that is free or the top chunk is cut in two.
pub proof fn lemma_segs_split(
    c: Map<int, Block>,
    segs: Seq<Seg>,
    top: int,
    p: int,
    nb: int,
    tag: Tag,
)
    requires
        state::segs_ok(c, segs, top),
        c.contains_key(p),
        0 < nb < c[p].size,
        !c.contains_key(p + nb),
        !(tag is Record),
        c[p].tag is Free && top != 0 && c.contains_key(top) && c[top].tag is Top || c[p].tag is Top
            && top == p,
    ensures
        state::segs_ok(
            c.insert(p, Block { size: nb, tag: Tag::Used }).insert(
                p + nb,
                Block { size: c[p].size - nb, tag },
            ),
            segs,
            if c[p].tag is Top { p + nb } else { top },
        ),
{
    let r = p + nb;
    let c2 = c.insert(p, Block { size: nb, tag: Tag::Used }).insert(
        r,
        Block { size: c[p].size - nb, tag },
    );
    let top2 = if c[p].tag is Top { r } else { top };
    assert(state::housed(c, segs, p));
    assert forall|i: int| 0 <= i < segs.len() implies #[trigger] state::seg_ok(
        c2,
        segs,
        top2,
        i,
    ) by {
        assert(state::seg_ok(c, segs, top, i));
    }
    assert forall|q: int| c2.contains_key(q) implies #[trigger] state::housed(c2, segs, q) by {
        let o = if q == r { p } else { q };
        assert(state::housed(c, segs, o));
        let j = choose|j: int| #[trigger] state::within(c, segs, j, o);
        assert(state::within(c2, segs, j, q));
    }
    assert forall|q: int| #[trigger] c2.contains_key(q) && c2[q].tag is Record implies exists|i: int|
        1 <= i < segs.len() && #[trigger] segs[i].at == q + 2 * arith::word() by {
        assert(c.contains_key(q));
    }
    assert(top2 != 0) by {
        let i = choose|i: int| #[trigger] state::within(c, segs, i, p);
        assert(state::seg_ok(c, segs, top, i));
    }
}

/// Bordering chunks become one.
pub proof fn lemma_segs_merge(
    c: Map<int, Block>,
    c2: Map<int, Block>,
    segs: Seq<Seg>,
    top: int,
    top2: int,
    i: int,
    a: int,
    size: int,
    tag: Tag,
)
    requires
        state::segs_ok(c, segs, top),
        c.contains_key(a),
        phys::merged(c, c2, a, size, tag),
        0 < c[a].size <= size,
        state::within(c, segs, i, a),
        a + size <= state::limit(segs, i),
        forall|q: int| #[trigger] c.contains_key(q) && a <= q < a + size ==> !(c[q].tag is Record),
        tag is Free || tag is Top,
        tag is Free ==> top2 == top && c2.contains_key(top) && c2[top] == c[top],
        tag is Top ==> top2 == a && i == 0 && a + size == top + c[top].size,
    ensures
        state::segs_ok(c2, segs, top2),
{
    assert(state::seg_ok(c, segs, top, i));
    assert forall|j: int| 0 <= j < segs.len() implies #[trigger] state::seg_ok(
        c2,
        segs,
        top2,
        j,
    ) by {
        assert(state::seg_ok(c, segs, top, j));
        if j < i {
            assert(state::segs_apart(segs[j], segs[i]));
        }
        if i < j {
            assert(state::segs_apart(segs[i], segs[j]));
        }
        assert(c2.contains_key(segs[j].base));
        if j > 0 {
            let rec = segs[j].at - 2 * arith::word();
            assert(c.contains_key(rec));
            assert(c2.contains_key(rec));
        }
    }
    assert forall|q: int| c2.contains_key(q) implies #[trigger] state::housed(c2, segs, q) by {
        if q == a {
            assert(state::within(c2, segs, i, a));
        } else {
            assert(state::housed(c, segs, q));
            let j = choose|j: int| #[trigger] state::within(c, segs, j, q);
            assert(state::within(c2, segs, j, q));
        }
    }
    assert forall|q: int| #[trigger] c2.contains_key(q) && c2[q].tag is Record implies exists|j: int|
        1 <= j < segs.len() && #[trigger] segs[j].at == q + 2 * arith::word() by {
        assert(c.contains_key(q));
    }
    assert(segs.len() > 0);
}

/// The head words that end the segments are in no chunk.
pub proof fn lemma_limit(
    c: Map<int, Block>,
    segs: Seq<Seg>,
    top: int,
    p: int,
    i: int,
)
    requires
        state::segs_ok(c, segs, top),
        c.contains_key(p),
        c[p].size > 0,
        0 <= i < segs.len(),
    ensures
        !(p <= state::limit(segs, i) < p + c[p].size),
        segs[i].base <= state::limit(segs, i) <= segs[i].base + segs[i].size - 4 * arith::word(),
{
    assert(state::seg_ok(c, segs, top, i));
    assert(state::housed(c, segs, p));
    let j = choose|j: int| #[trigger] state::within(c, segs, j, p);
    assert(state::seg_ok(c, segs, top, j));
    if i < j {
        assert(state::segs_apart(segs[i], segs[j]));
    }
    if j < i {
        assert(state::segs_apart(segs[j], segs[i]));
    }
    if i > 0 {
        let rec = segs[i].at - 2 * arith::word();
        assert(state::within(c, segs, i, rec));
    }
}

/// Head words inside of chunk `p` or at the chunk behind it may change.
pub proof fn lemma_marks(
    c: Map<int, Block>,
    segs: Seq<Seg>,
    top: int,
    heads: Map<int, usize>,
    heads2: Map<int, usize>,
    p: int,
)
    requires
        state::segs_ok(c, segs, top),
        state::marks_ok(segs, heads),
        c.contains_key(p),
        c[p].size > 0,
        forall|q: int|
            !(p <= q < p + c[p].size) && !(q == p + c[p].size && c.contains_key(q) && c[q].size > 0)
                ==> #[trigger] heads2[q] == heads[q],
    ensures
        state::marks_ok(segs, heads2),
{
    assert forall|i: int| #![trigger segs[i]] 0 <= i < segs.len() implies heads2[state::limit(segs, i)]
        == if i == 0 {
        10 * arith::word()
    } else {
        3 + arith::word()
    } by {
        lemma_limit(c, segs, top, p, i);
        let n = p + c[p].size;
        if c.contains_key(n) && c[n].size > 0 {
            lemma_limit(c, segs, top, n, i);
        }
        assert(heads2[state::limit(segs, i)] == heads[state::limit(segs, i)]);
    }
}

} // verus!
