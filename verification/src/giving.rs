//! What goes back to the system, and what stays.
use vstd::prelude::*;
use crate::arith;
use crate::carve;
use crate::release::Reply;
use crate::returning;
use crate::serving;
use crate::serving::{free_list, without};
use crate::state;
use crate::state::{Block, Dlmalloc, Heap, Seg, Tag};

verus! {

/// Segment `i` came from the system, its record lies at its very end, with something in front of
/// it, and no client holds a block in it.
pub open spec fn idle(h: Heap, i: int) -> bool {
    let g = h.segs[i];
    &&& g.flags % 2 == 0
    &&& g.at == g.base + g.size - 8 * arith::word()
    &&& g.size > 10 * arith::word()
    &&& forall|q: int| #[trigger]
        h.chunks.contains_key(q) && g.base <= q < g.base + g.size ==> !(h.chunks[q].tag is Used)
}

/// Segment `i` is idle, and the system was asked to take it. The replies are those for the segments
/// from `k` on.
pub open spec fn offered(h: Heap, k: int, replies: Seq<Reply>, i: int) -> bool {
    &&& k <= i < h.segs.len()
    &&& i - k < replies.len()
    &&& idle(h, i)
    &&& replies[i - k] is Failed || replies[i - k] is Freed
}

/// Segment `i` is idle, and the system has taken it.
pub open spec fn taken(h: Heap, k: int, replies: Seq<Reply>, i: int) -> bool {
    &&& k <= i < h.segs.len()
    &&& i - k < replies.len()
    &&& idle(h, i)
    &&& replies[i - k] is Freed
}

/// Address `q` lies in a segment that the system has taken.
pub open spec fn gone(h: Heap, k: int, replies: Seq<Reply>, q: int) -> bool {
    exists|i: int| #[trigger]
        taken(h, k, replies, i) && h.segs[i].base <= q < h.segs[i].base + h.segs[i].size
}

/// A segment that starts at `p` is idle, and the system was asked to take it.
pub open spec fn asked(h: Heap, k: int, replies: Seq<Reply>, p: int) -> bool {
    exists|i: int| #[trigger] offered(h, k, replies, i) && h.segs[i].base == p
}

/// The segments from `k` on that the system has not taken, in their order.
pub open spec fn kept(h: Heap, k: int, replies: Seq<Reply>) -> Seq<Seg>
    decreases replies.len(),
{
    if k >= h.segs.len() || replies.len() == 0 {
        h.segs.skip(k)
    } else {
        let more = kept(h, k + 1, replies.drop_first());
        if taken(h, k, replies, k) {
            more
        } else {
            seq![h.segs[k]] + more
        }
    }
}

/// The bytes of the segments from `k` on that the system has taken.
pub open spec fn bytes_taken(h: Heap, k: int, replies: Seq<Reply>) -> int
    decreases replies.len(),
{
    if k >= h.segs.len() || replies.len() == 0 {
        0
    } else {
        let more = bytes_taken(h, k + 1, replies.drop_first());
        if taken(h, k, replies, k) {
            h.segs[k].size + more
        } else {
            more
        }
    }
}

/// The list `l` of the free chunks of size `t`, after the segments from `k` on were looked at in
/// their order: the free chunk of one that was offered leaves it, and comes back at its end if the
/// segment was not taken.
pub open spec fn relisted(h: Heap, k: int, replies: Seq<Reply>, t: int, l: Seq<int>) -> Seq<int>
    decreases replies.len(),
{
    if k >= h.segs.len() || replies.len() == 0 {
        l
    } else {
        let g = h.segs[k];
        let m = if !offered(h, k, replies, k) {
            l
        } else if !taken(h, k, replies, k) && t == g.size - 10 * arith::word() {
            without(l, g.base).push(g.base)
        } else {
            without(l, g.base)
        };
        relisted(h, k + 1, replies.drop_first(), t, m)
    }
}

/// The segments that can be given back are those that are idle: all of one but its last ten words is
/// a single free chunk.
pub proof fn lemma_unused_idle(d: Dlmalloc, k: int)
    requires
        d.wf(),
        1 <= k < d@.segs.len(),
    ensures
        d@.unused(k) <==> idle(d@, k),
        idle(d@, k) ==> d@.chunks.contains_key(d@.segs[k].base) && d@.chunks[d@.segs[k].base]
            == (Block { size: d@.segs[k].size - 10 * arith::word(), tag: Tag::Free }),
{
    let h = d@;
    let c = h.chunks;
    let segs = h.segs;
    let g = segs[k];
    let rec = g.at - 2 * arith::word();
    assert(state::seg_ok(c, segs, h.top, k));
    assert(state::chunk_ok(c, d.mem.heads@, d.mem.feet@, g.base));
    assert(state::chunk_ok(c, d.mem.heads@, d.mem.feet@, rec));
    if h.unused(k) {
        crate::release::lemma_unused(d, Set::empty(), k);
        assert forall|q: int| #[trigger]
            c.contains_key(q) && g.base <= q < g.base + g.size implies !(c[q].tag is Used) by {
            assert(state::chunk_ok(c, d.mem.heads@, d.mem.feet@, q));
        }
        assert(idle(h, k));
    }
    if idle(h, k) {
        let n = g.base + c[g.base].size;
        assert(g.base < rec);
        assert(n <= rec);
        assert(state::seg_ok(c, segs, h.top, 0));
        assert(state::segs_apart(segs[0], segs[k]));
        carve::lemma_top_there(d, rec);
        if c[g.base].tag is Record {
            lemma_record_place(d, k, g.base);
        }
        assert(c[g.base].tag is Free);
        if c[n].tag is Record {
            assert(state::chunk_ok(c, d.mem.heads@, d.mem.feet@, n));
            lemma_record_place(d, k, n);
        }
        assert(n == rec);
    }
}

/// The one record in a segment is its own.
proof fn lemma_record_place(d: Dlmalloc, k: int, p: int)
    requires
        d.wf(),
        1 <= k < d@.segs.len(),
        d@.chunks.contains_key(p),
        d@.chunks[p].tag is Record,
        d@.segs[k].base <= p < d@.segs[k].base + d@.segs[k].size,
    ensures
        p == d@.segs[k].at - 2 * arith::word(),
{
    let c = d@.chunks;
    let segs = d@.segs;
    let j = choose|j: int|
        1 <= j < segs.len() && #[trigger] segs[j].at == p + 2 * arith::word();
    assert(state::seg_ok(c, segs, d@.top, j));
    assert(state::chunk_ok(c, d.mem.heads@, d.mem.feet@, p));
    if j < k {
        assert(state::segs_apart(segs[j], segs[k]));
    }
    if k < j {
        assert(state::segs_apart(segs[k], segs[j]));
    }
}

/// Where the chunks of segment `i` are.
spec fn settled(h: Heap, i: int) -> bool {
    let g = h.segs[i];
    let rec = g.at - 2 * arith::word();
    let end = g.base + g.size;
    &&& 0 < g.base
    &&& h.chunks.contains_key(g.base)
    &&& h.chunks.contains_key(rec)
    &&& h.chunks[rec].tag is Record
    &&& g.base <= rec < end
    &&& h.unused(i) <==> idle(h, i)
    &&& idle(h, i) ==> {
        &&& h.chunks[g.base] == (Block { size: g.size - 10 * arith::word(), tag: Tag::Free })
        &&& forall|q: int| #[trigger]
            h.chunks.contains_key(q) && g.base <= q < end ==> q == g.base || q == rec
        &&& forall|t: int| #[trigger]
            free_list(h, t).contains(g.base) <==> g.base != h.dv && t == g.size - 10
                * arith::word()
    }
}

/// The segments behind the newest are in order, and no list holds a chunk twice.
spec fn orderly(h: Heap) -> bool {
    &&& forall|i: int| 1 <= i < h.segs.len() ==> #[trigger] settled(h, i)
    &&& forall|i: int, j: int|
        1 <= i < j < h.segs.len() ==> state::segs_apart(#[trigger] h.segs[i], #[trigger] h.segs[j])
    &&& forall|t: int| #[trigger] free_list(h, t).no_duplicates()
}

proof fn lemma_orderly(d: Dlmalloc)
    requires
        d.wf(),
    ensures
        orderly(d@),
{
    let h = d@;
    let c = h.chunks;
    let segs = h.segs;
    assert forall|t: int| #[trigger] free_list(h, t).no_duplicates() by {
        returning::lemma_list_distinct(d, t);
    }
    assert forall|i: int| 1 <= i < segs.len() implies #[trigger] settled(h, i) by {
        let g = segs[i];
        let rec = g.at - 2 * arith::word();
        assert(state::seg_ok(c, segs, h.top, i));
        assert(state::chunk_ok(c, d.mem.heads@, d.mem.feet@, rec));
        lemma_unused_idle(d, i);
        if idle(h, i) {
            crate::release::lemma_unused(d, Set::empty(), i);
            assert forall|q: int| #[trigger]
                c.contains_key(q) && g.base <= q < g.base + g.size implies q == g.base || q
                == rec by {
                assert(state::chunk_ok(c, d.mem.heads@, d.mem.feet@, q));
            }
            assert forall|t: int| #[trigger]
                free_list(h, t).contains(g.base) <==> g.base != h.dv && t == g.size - 10
                    * arith::word() by {
                returning::lemma_lists_without(d, g.base, t);
            }
        }
    }
}

/// Chunk `p` leaves its list, or is no longer the designated victim.
proof fn lemma_unlist(h: Heap, s: int, p: int, t: int)
    requires
        forall|t: int| #[trigger] free_list(h, t).no_duplicates(),
        forall|t: int| #[trigger] free_list(h, t).contains(p) <==> p != h.dv && t == s,
    ensures
        free_list(h.unlist(s, p), t) == without(free_list(h, t), p),
        free_list(h.unlist(s, p), t).no_duplicates(),
        !free_list(h.unlist(s, p), t).contains(p),
{
    let l = free_list(h, t);
    assert(l.contains(p) <==> p != h.dv && t == s);
    assert(free_list(h, s).contains(p) <==> p != h.dv);
    if p != h.dv {
        serving::lemma_take_list(h, s, p, t);
    }
    returning::lemma_without_kept(l, p);
    assert(free_list(h.unlist(s, p), t) == without(l, p));
    if without(l, p).contains(p) && l.contains(p) {
        let j = l.index_of(p);
        assert(0 <= j < l.len() && l[j] == p);
        let m = l.remove(j);
        let i = choose|i: int| 0 <= i < m.len() && m[i] == p;
        let x = if i < j { i } else { i + 1 };
        assert(m[i] == l[x]);
        assert(l.no_duplicates() && x != j);
    }
}

/// An idle segment that is offered again and not taken.
#[verifier::rlimit(50)]
proof fn lemma_rebin_orderly(h: Heap, k: int)
    requires
        orderly(h),
        1 <= k < h.segs.len(),
        idle(h, k),
    ensures
        ({
            let g = h.rebin(k);
            let p = h.segs[k].base;
            &&& orderly(g)
            &&& g.segs == h.segs
            &&& g.chunks == h.chunks
            &&& forall|t: int| #[trigger]
                free_list(g, t) == if t == h.segs[k].size - 10 * arith::word() {
                    without(free_list(h, t), p).push(p)
                } else {
                    without(free_list(h, t), p)
                }
            &&& (g.dv, g.dvsize) == if h.dv == p {
                (0, 0)
            } else {
                (h.dv, h.dvsize)
            }
        }),
{
    let g = h.rebin(k);
    let p = h.segs[k].base;
    assert(settled(h, k));
    let s = h.chunks[p].size;
    let u = h.unlist(s, p);
    assert forall|t: int| #[trigger] free_list(g, t).no_duplicates() && free_list(g, t) == if t
        == s {
        without(free_list(h, t), p).push(p)
    } else {
        without(free_list(h, t), p)
    } by {
        lemma_unlist(h, s, p, t);
        serving::lemma_put_list(u, s, p, t);
    }
    assert forall|i: int| 1 <= i < g.segs.len() implies #[trigger] settled(g, i) by {
        assert(settled(h, i));
        assert(g.unused(i) == h.unused(i));
        assert(idle(g, i) == idle(h, i));
        let b = g.segs[i].base;
        assert(i != k ==> b != p) by {
            if i < k {
                assert(state::segs_apart(h.segs[i], h.segs[k]));
            }
            if k < i {
                assert(state::segs_apart(h.segs[k], h.segs[i]));
            }
        }
        if idle(h, i) {
            assert forall|t: int| #[trigger]
                free_list(g, t).contains(b) <==> b != g.dv && t == g.segs[i].size - 10
                    * arith::word() by {
                lemma_unlist(h, s, p, t);
                lemma_push_contains(without(free_list(h, t), p), p, b);
                assert(free_list(h, t).contains(b) <==> b != h.dv && t == h.segs[i].size - 10
                    * arith::word());
                if b != p {
                    returning::lemma_without_other(free_list(h, t), p, b);
                }
            }
        }
    }
    assert(g.dv == 0 || g.dv == h.dv);
}

proof fn lemma_push_contains(l: Seq<int>, x: int, y: int)
    ensures
        l.push(x).contains(y) <==> l.contains(y) || x == y,
{
    assert(l.push(x)[l.len() as int] == x);
    if l.contains(y) {
        let i = choose|i: int| 0 <= i < l.len() && l[i] == y;
        assert(l.push(x)[i] == y);
    }
}

/// An idle segment that the system takes.
#[verifier::rlimit(50)]
proof fn lemma_drop_orderly(h: Heap, k: int)
    requires
        orderly(h),
        1 <= k < h.segs.len(),
        idle(h, k),
    ensures
        ({
            let g = h.drop_seg(k);
            let s = h.segs[k];
            &&& orderly(g)
            &&& g.segs == h.segs.remove(k)
            &&& g.footprint == h.footprint - s.size
            &&& forall|q: int| #[trigger]
                g.chunks.contains_key(q) <==> h.chunks.contains_key(q) && !(s.base <= q < s.base
                    + s.size)
            &&& forall|q: int| #[trigger] g.chunks.contains_key(q) ==> g.chunks[q] == h.chunks[q]
            &&& forall|i: int|
                1 <= i < g.segs.len() ==> #[trigger] idle(g, i) == idle(
                    h,
                    if i < k {
                        i
                    } else {
                        i + 1
                    },
                )
            &&& forall|t: int| #[trigger] free_list(g, t) == without(free_list(h, t), s.base)
            &&& (g.dv, g.dvsize) == if h.dv == s.base {
                (0, 0)
            } else {
                (h.dv, h.dvsize)
            }
        }),
{
    let g = h.drop_seg(k);
    let s = h.segs[k];
    let p = s.base;
    assert(settled(h, k));
    let n = h.chunks[p].size;
    let u = h.unlist(n, p);
    assert(u.chunks == h.chunks);
    let rec = s.at - 2 * arith::word();
    assert forall|t: int| #[trigger] free_list(g, t).no_duplicates() && free_list(g, t) == without(
        free_list(h, t),
        p,
    ) by {
        lemma_unlist(h, n, p, t);
        assert(free_list(g, t) == free_list(u, t));
    }
    assert forall|i: int| 1 <= i < g.segs.len() implies #[trigger] settled(g, i) && (idle(g, i)
        == idle(h, if i < k { i } else { i + 1 })) by {
        let j = if i < k { i } else { i + 1 };
        let x = g.segs[i];
        assert(x == h.segs[j]);
        assert(settled(h, j));
        assert(state::segs_apart(s, x)) by {
            if j < k {
                assert(state::segs_apart(h.segs[j], h.segs[k]));
            } else {
                assert(state::segs_apart(h.segs[k], h.segs[j]));
            }
        }
        let b = x.base;
        let r = x.at - 2 * arith::word();
        assert(b != p && b != rec && r != p && r != rec);
        assert(g.chunks[b] == h.chunks[b]);
        assert(g.unused(i) == h.unused(j));
        assert(idle(g, i) == idle(h, j)) by {
            if idle(g, i) {
                assert forall|q: int| #[trigger]
                    h.chunks.contains_key(q) && x.base <= q < x.base + x.size implies !(
                h.chunks[q].tag is Used) by {
                    assert(g.chunks.contains_key(q));
                }
            }
            if idle(h, j) {
                assert forall|q: int| #[trigger]
                    g.chunks.contains_key(q) && x.base <= q < x.base + x.size implies !(
                g.chunks[q].tag is Used) by {
                    assert(h.chunks.contains_key(q));
                }
            }
        }
        if idle(h, j) {
            assert forall|t: int| #[trigger]
                free_list(g, t).contains(b) <==> b != g.dv && t == x.size - 10 * arith::word() by {
                lemma_unlist(h, n, p, t);
                returning::lemma_without_other(free_list(h, t), p, b);
                assert(free_list(h, t).contains(b) <==> b != h.dv && t == x.size - 10
                    * arith::word());
            }
            assert forall|q: int| #[trigger]
                g.chunks.contains_key(q) && b <= q < b + x.size implies q == b || q == r by {
                assert(h.chunks.contains_key(q));
            }
        }
    }
    assert forall|i: int| 1 <= i < g.segs.len() implies #[trigger] idle(g, i) == idle(
        h,
        if i < k { i } else { i + 1 },
    ) by {
        assert(settled(g, i));
    }
    assert forall|q: int| #[trigger]
        g.chunks.contains_key(q) <==> h.chunks.contains_key(q) && !(p <= q < p + s.size) by {
        assert(p <= rec < p + s.size);
    }
    assert forall|i: int, j: int| 1 <= i < j < g.segs.len() implies state::segs_apart(
        #[trigger] g.segs[i],
        #[trigger] g.segs[j],
    ) by {
        let i2 = if i < k { i } else { i + 1 };
        let j2 = if j < k { j } else { j + 1 };
        assert(g.segs[i] == h.segs[i2] && g.segs[j] == h.segs[j2]);
    }
}

/// The segments behind one that has gone, or behind one that stays.
proof fn lemma_shift(h: Heap, g: Heap, e: int, k: int, replies: Seq<Reply>, t: int, l: Seq<int>)
    requires
        1 <= k <= g.segs.len(),
        0 <= e,
        g.segs.len() + e == h.segs.len(),
        forall|i: int| k <= i < g.segs.len() ==> #[trigger] g.segs[i] == h.segs[i + e],
        forall|i: int| k <= i < g.segs.len() ==> #[trigger] idle(g, i) == idle(h, i + e),
    ensures
        kept(g, k, replies) == kept(h, k + e, replies),
        bytes_taken(g, k, replies) == bytes_taken(h, k + e, replies),
        relisted(g, k, replies, t, l) == relisted(h, k + e, replies, t, l),
        forall|q: int| #[trigger] gone(g, k, replies, q) == gone(h, k + e, replies, q),
        forall|p: int| #[trigger] asked(g, k, replies, p) == asked(h, k + e, replies, p),
    decreases replies.len(),
{
    assert forall|i: int| #[trigger]
        offered(g, k, replies, i) == offered(h, k + e, replies, i + e) by {
        assert(k <= i < g.segs.len() ==> idle(g, i) == idle(h, i + e));
    }
    assert forall|i: int| #[trigger] taken(g, k, replies, i) == taken(
        h,
        k + e,
        replies,
        i + e,
    ) by {
        assert(k <= i < g.segs.len() ==> idle(g, i) == idle(h, i + e));
    }
    assert forall|q: int| #[trigger] gone(g, k, replies, q) == gone(h, k + e, replies, q) by {
        if gone(g, k, replies, q) {
            let i = choose|i: int| #[trigger]
                taken(g, k, replies, i) && g.segs[i].base <= q < g.segs[i].base + g.segs[i].size;
            assert(taken(h, k + e, replies, i + e));
        }
        if gone(h, k + e, replies, q) {
            let i = choose|i: int| #[trigger]
                taken(h, k + e, replies, i) && h.segs[i].base <= q < h.segs[i].base
                    + h.segs[i].size;
            assert(taken(g, k, replies, i - e));
            assert(g.segs[i - e] == h.segs[i]);
        }
    }
    assert forall|p: int| #[trigger] asked(g, k, replies, p) == asked(h, k + e, replies, p) by {
        if asked(g, k, replies, p) {
            let i = choose|i: int| #[trigger] offered(g, k, replies, i) && g.segs[i].base == p;
            assert(offered(h, k + e, replies, i + e));
        }
        if asked(h, k + e, replies, p) {
            let i = choose|i: int| #[trigger] offered(h, k + e, replies, i) && h.segs[i].base == p;
            assert(offered(g, k, replies, i - e));
            assert(g.segs[i - e] == h.segs[i]);
        }
    }
    if k >= g.segs.len() || replies.len() == 0 {
        assert(kept(g, k, replies) =~= kept(h, k + e, replies));
    } else {
        let x = g.segs[k];
        assert(x == h.segs[k + e]);
        assert(offered(g, k, replies, k) == offered(h, k + e, replies, k + e));
        assert(taken(g, k, replies, k) == taken(h, k + e, replies, k + e));
        let m = if !offered(g, k, replies, k) {
            l
        } else if !taken(g, k, replies, k) && t == x.size - 10 * arith::word() {
            without(l, x.base).push(x.base)
        } else {
            without(l, x.base)
        };
        lemma_shift(h, g, e, k + 1, replies.drop_first(), t, m);
        assert(k + 1 + e == k + e + 1);
    }
}

/// What the replies for the segments from `k` on do to them and to their chunks.
#[verifier::rlimit(60)]
proof fn lemma_release_from(h: Heap, k: int, replies: Seq<Reply>, t: int)
    requires
        orderly(h),
        1 <= k <= h.segs.len(),
    ensures
        ({
            let (g, r) = h.release_from(k, replies);
            &&& g.segs == h.segs.subrange(0, k) + kept(h, k, replies)
            &&& r == bytes_taken(h, k, replies)
            &&& g.footprint == h.footprint - r
            &&& free_list(g, t) == relisted(h, k, replies, t, free_list(h, t))
            &&& forall|q: int| #[trigger]
                g.chunks.contains_key(q) <==> h.chunks.contains_key(q) && !gone(h, k, replies, q)
            &&& forall|q: int| #[trigger] g.chunks.contains_key(q) ==> g.chunks[q] == h.chunks[q]
            &&& (g.dv, g.dvsize) == if asked(h, k, replies, h.dv) {
                (0, 0)
            } else {
                (h.dv, h.dvsize)
            }
            &&& (g.top, g.topsize) == (h.top, h.topsize)
            &&& g.max_footprint == h.max_footprint
            &&& g.trim_check == h.trim_check
            &&& g.least_addr == h.least_addr
            &&& g.origins == h.origins
        }),
    decreases replies.len(),
{
    let (g, r) = h.release_from(k, replies);
    let n = h.segs.len() as int;
    if k >= n || replies.len() == 0 {
        assert(g.segs =~= h.segs.subrange(0, k) + kept(h, k, replies));
        assert forall|i: int| !offered(h, k, replies, i) && !taken(h, k, replies, i) by {}
    } else {
        let rest = replies.drop_first();
        let x = h.segs[k];
        assert(settled(h, k));
        lemma_next(h, k, replies);
        if replies[0] is Kept || !h.unused(k) {
            assert(!offered(h, k, replies, k) && !taken(h, k, replies, k));
            lemma_release_from(h, k + 1, rest, t);
            assert(h.segs.subrange(0, k + 1) =~= h.segs.subrange(0, k).push(x));
            assert(g.segs =~= h.segs.subrange(0, k) + kept(h, k, replies));
        } else if replies[0] is Failed {
            let h2 = h.rebin(k);
            lemma_rebin_orderly(h, k);
            assert(offered(h, k, replies, k) && !taken(h, k, replies, k));
            lemma_release_from(h2, k + 1, rest, t);
            assert forall|i: int| k + 1 <= i < n implies #[trigger] idle(h2, i) == idle(
                h,
                i + 0,
            ) by {}
            lemma_shift(h, h2, 0, k + 1, rest, t, free_list(h2, t));
            assert(h.segs.subrange(0, k + 1) =~= h.segs.subrange(0, k).push(x));
            assert(g.segs =~= h.segs.subrange(0, k) + kept(h, k, replies));
        } else {
            let h2 = h.drop_seg(k);
            lemma_drop_orderly(h, k);
            assert(offered(h, k, replies, k) && taken(h, k, replies, k));
            lemma_release_from(h2, k, rest, t);
            lemma_shift(h, h2, 1, k, rest, t, free_list(h2, t));
            assert(h2.segs.subrange(0, k) =~= h.segs.subrange(0, k));
            assert(g.segs =~= h.segs.subrange(0, k) + kept(h, k, replies));
        }
    }
}

/// The replies for the segments from `k` on are that for `k` and those for the others.
proof fn lemma_next(h: Heap, k: int, replies: Seq<Reply>)
    requires
        1 <= k < h.segs.len(),
        replies.len() > 0,
    ensures
        ({
            let rest = replies.drop_first();
            let x = h.segs[k];
            &&& forall|q: int| #[trigger]
                gone(h, k, replies, q) <==> gone(h, k + 1, rest, q) || (taken(h, k, replies, k)
                    && x.base <= q < x.base + x.size)
            &&& forall|p: int| #[trigger]
                asked(h, k, replies, p) <==> asked(h, k + 1, rest, p) || (offered(h, k, replies, k)
                    && x.base == p)
        }),
{
    let rest = replies.drop_first();
    let x = h.segs[k];
    assert forall|i: int| i > k implies #[trigger] taken(h, k, replies, i) == taken(
        h,
        k + 1,
        rest,
        i,
    ) by {
        assert(i - k < replies.len() ==> replies[i - k] == rest[i - k - 1]);
    }
    assert forall|i: int| i > k implies #[trigger] offered(h, k, replies, i) == offered(
        h,
        k + 1,
        rest,
        i,
    ) by {
        assert(i - k < replies.len() ==> replies[i - k] == rest[i - k - 1]);
    }
    assert forall|q: int| #[trigger]
        gone(h, k, replies, q) <==> gone(h, k + 1, rest, q) || (taken(h, k, replies, k) && x.base
            <= q < x.base + x.size) by {
        if gone(h, k + 1, rest, q) {
            let i = choose|i: int| #[trigger]
                taken(h, k + 1, rest, i) && h.segs[i].base <= q < h.segs[i].base + h.segs[i].size;
            assert(taken(h, k, replies, i));
        }
    }
    assert forall|p: int| #[trigger]
        asked(h, k, replies, p) <==> asked(h, k + 1, rest, p) || (offered(h, k, replies, k)
            && x.base == p) by {
        if asked(h, k + 1, rest, p) {
            let i = choose|i: int| #[trigger] offered(h, k + 1, rest, i) && h.segs[i].base == p;
            assert(offered(h, k, replies, i));
        }
    }
}

/// Giving segments back leaves, in their order, those that the system has not taken. The system has
/// taken exactly the idle ones behind the newest for which it said so. As many bytes are reported,
/// and no longer counted.
pub proof fn lemma_release_segments(d: Dlmalloc, replies: Seq<Reply>)
    requires
        d.wf(),
        d@.segs.len() > 0,
    ensures
        ({
            let h = d@;
            let (g, r) = h.release(replies);
            &&& g.segs == seq![h.segs[0]] + kept(h, 1, replies)
            &&& r == bytes_taken(h, 1, replies)
            &&& g.footprint == h.footprint - r
            &&& g.release_checks == if h.segs.len() - 1 > 4095 {
                h.segs.len() - 1
            } else {
                4095
            }
        }),
{
    let h = d@;
    lemma_orderly(d);
    lemma_release_from(h, 1, replies, 0);
    assert(h.segs.subrange(0, 1) =~= seq![h.segs[0]]);
}

/// Without segments there is nothing to give back.
pub proof fn lemma_release_nothing(d: Dlmalloc, replies: Seq<Reply>)
    requires
        d.wf(),
        d@.segs.len() == 0,
    ensures
        d@.release(replies) == ((Heap { release_checks: 4095, ..d@ }), 0int),
{
}

/// An idle segment behind the newest that the system has taken is gone, and no chunk of it is left.
/// Every other segment stays.
pub proof fn lemma_release_each(d: Dlmalloc, replies: Seq<Reply>, i: int, q: int)
    requires
        d.wf(),
        0 <= i < d@.segs.len(),
    ensures
        ({
            let h = d@;
            let s = h.segs[i];
            let g = h.release(replies).0;
            if i >= 1 && i - 1 < replies.len() && replies[i - 1] is Freed && idle(h, i) {
                &&& !g.segs.contains(s)
                &&& s.base <= q < s.base + s.size ==> !g.chunks.contains_key(q)
            } else {
                &&& g.segs.contains(s)
                &&& s.base <= q < s.base + s.size && h.chunks.contains_key(q)
                    ==> g.chunks.contains_key(q) && g.chunks[q] == h.chunks[q]
            }
        }),
{
    let h = d@;
    let s = h.segs[i];
    assert(state::seg_ok(h.chunks, h.segs, h.top, i));
    assert forall|j: int| 0 <= j < h.segs.len() && j != i implies state::segs_apart(
        #[trigger] h.segs[j],
        s,
    ) by {
        if j < i {
            assert(state::segs_apart(h.segs[j], h.segs[i]));
        } else {
            assert(state::segs_apart(h.segs[i], h.segs[j]));
        }
    }
    lemma_release_segments(d, replies);
    lemma_release_chunks(d, replies, 0);
    lemma_each(h, h.release(replies).0, replies, i, q);
}

/// What becomes of one segment and what is in it.
proof fn lemma_each(h: Heap, g: Heap, replies: Seq<Reply>, i: int, q: int)
    requires
        0 <= i < h.segs.len(),
        h.segs[i].size > 0,
        forall|j: int|
            0 <= j < h.segs.len() && j != i ==> state::segs_apart(#[trigger] h.segs[j], h.segs[i]),
        g.segs == seq![h.segs[0]] + kept(h, 1, replies),
        g.chunks.contains_key(q) <==> h.chunks.contains_key(q) && !gone(h, 1, replies, q),
        g.chunks.contains_key(q) ==> g.chunks[q] == h.chunks[q],
    ensures
        ({
            let s = h.segs[i];
            if taken(h, 1, replies, i) {
                &&& !g.segs.contains(s)
                &&& s.base <= q < s.base + s.size ==> !g.chunks.contains_key(q)
            } else {
                &&& g.segs.contains(s)
                &&& s.base <= q < s.base + s.size && h.chunks.contains_key(q)
                    ==> g.chunks.contains_key(q) && g.chunks[q] == h.chunks[q]
            }
        }),
{
    let s = h.segs[i];
    let l = kept(h, 1, replies);
    if i == 0 {
        assert(g.segs[0] == s);
    } else {
        lemma_kept_member(h, 1, replies, i);
        if l.contains(s) {
            let j = choose|j: int| 0 <= j < l.len() && l[j] == s;
            assert(g.segs[j + 1] == s);
        }
        if g.segs.contains(s) {
            let j = choose|j: int| 0 <= j < g.segs.len() && g.segs[j] == s;
            assert(j > 0 ==> l[j - 1] == s);
            assert(j == 0 ==> state::segs_apart(h.segs[0], s));
        }
    }
    if taken(h, 1, replies, i) {
        assert(s.base <= q < s.base + s.size ==> gone(h, 1, replies, q));
    } else if s.base <= q < s.base + s.size && gone(h, 1, replies, q) {
        let j = choose|j: int| #[trigger]
            taken(h, 1, replies, j) && h.segs[j].base <= q < h.segs[j].base + h.segs[j].size;
        assert(state::segs_apart(h.segs[j], s));
    }
}

/// The segments that stay are those that were not taken.
proof fn lemma_kept_member(h: Heap, k: int, replies: Seq<Reply>, i: int)
    requires
        1 <= k <= i < h.segs.len(),
        h.segs[i].size > 0,
        forall|j: int|
            0 <= j < h.segs.len() && j != i ==> state::segs_apart(#[trigger] h.segs[j], h.segs[i]),
    ensures
        kept(h, k, replies).contains(h.segs[i]) <==> !taken(h, k, replies, i),
    decreases replies.len(),
{
    let l = kept(h, k, replies);
    if replies.len() == 0 {
        assert(l[i - k] == h.segs[i]);
    } else {
        let rest = replies.drop_first();
        let more = kept(h, k + 1, rest);
        if i > k {
            assert(i - k < replies.len() ==> replies[i - k] == rest[i - k - 1]);
            lemma_kept_member(h, k + 1, rest, i);
            if !taken(h, k, replies, k) {
                assert(l == seq![h.segs[k]] + more);
                if more.contains(h.segs[i]) {
                    let j = choose|j: int| 0 <= j < more.len() && more[j] == h.segs[i];
                    assert(l[j + 1] == h.segs[i]);
                }
                if l.contains(h.segs[i]) {
                    let j = choose|j: int| 0 <= j < l.len() && l[j] == h.segs[i];
                    assert(state::segs_apart(h.segs[k], h.segs[i]));
                    assert(more[j - 1] == h.segs[i]);
                }
            }
        } else if taken(h, k, replies, k) {
            lemma_kept_behind(h, k + 1, rest, i);
        } else {
            assert(l[0] == h.segs[i]);
        }
    }
}

/// A segment is none of those behind it.
proof fn lemma_kept_behind(h: Heap, k: int, replies: Seq<Reply>, i: int)
    requires
        0 <= i < k <= h.segs.len(),
        h.segs[i].size > 0,
        forall|j: int|
            0 <= j < h.segs.len() && j != i ==> state::segs_apart(#[trigger] h.segs[j], h.segs[i]),
    ensures
        !kept(h, k, replies).contains(h.segs[i]),
    decreases replies.len(),
{
    let l = kept(h, k, replies);
    if k >= h.segs.len() || replies.len() == 0 {
        if l.contains(h.segs[i]) {
            let j = choose|j: int| 0 <= j < l.len() && l[j] == h.segs[i];
            assert(l[j] == h.segs[k + j]);
            assert(state::segs_apart(h.segs[k + j], h.segs[i]));
        }
    } else {
        let more = kept(h, k + 1, replies.drop_first());
        lemma_kept_behind(h, k + 1, replies.drop_first(), i);
        assert(state::segs_apart(h.segs[k], h.segs[i]));
        if l.contains(h.segs[i]) && !taken(h, k, replies, k) {
            let j = choose|j: int| 0 <= j < l.len() && l[j] == h.segs[i];
            assert(j > 0);
            assert(more[j - 1] == h.segs[i]);
        }
    }
}

/// Giving segments back leaves all chunks outside those that the system has taken. The free chunk
/// of one that it was asked to take leaves its list, or is no longer the designated victim, and
/// comes to the end of the list for its size if the segment was not taken.
pub proof fn lemma_release_chunks(d: Dlmalloc, replies: Seq<Reply>, t: int)
    requires
        d.wf(),
        d@.segs.len() > 0,
    ensures
        ({
            let h = d@;
            let g = h.release(replies).0;
            &&& forall|q: int| #[trigger]
                g.chunks.contains_key(q) <==> h.chunks.contains_key(q) && !gone(h, 1, replies, q)
            &&& forall|q: int| #[trigger] g.chunks.contains_key(q) ==> g.chunks[q] == h.chunks[q]
            &&& free_list(g, t) == relisted(h, 1, replies, t, free_list(h, t))
            &&& (g.dv, g.dvsize) == if asked(h, 1, replies, h.dv) {
                (0, 0)
            } else {
                (h.dv, h.dvsize)
            }
            &&& (g.top, g.topsize) == (h.top, h.topsize)
            &&& g.max_footprint == h.max_footprint
            &&& g.trim_check == h.trim_check
            &&& g.least_addr == h.least_addr
            &&& g.origins == h.origins
        }),
{
    lemma_orderly(d);
    lemma_release_from(d@, 1, replies, t);
    assert(free_list(d@.release(replies).0, t) == free_list(d@.release_from(1, replies).0, t));
}

/// The bytes that can be cut off the top chunk of `h` so that `pad` bytes and ten words stay: the
/// most that leave more than that, in whole units; none, if the newest segment cannot be cut or the
/// system has not taken them.
pub open spec fn cut_off(h: Heap, pad: int, trimmed: bool, x: int) -> bool {
    if trimmed && h.topsize > pad + 10 * arith::word() && h.segs[0].flags % 2 == 0 {
        &&& x % 65536 == 0
        &&& x < h.topsize - pad - 10 * arith::word() <= x + 65536
    } else {
        x == 0
    }
}

/// When the end of the top chunk is offered to the system, and how much of it.
pub proof fn lemma_trim_offer(d: Dlmalloc, pad: int, x: int)
    requires
        d.wf(),
        0 <= pad,
    ensures
        d@.trims(pad) <==> pad < usize::MAX + 1 - 16 * arith::word() && d@.top != 0,
        d@.can_trim(pad) <==> {
            &&& pad < usize::MAX + 1 - 16 * arith::word()
            &&& d@.top != 0
            &&& d@.topsize > pad + 10 * arith::word()
            &&& d@.segs[0].flags % 2 == 0
        },
        d@.can_trim(pad) ==> (d@.extra(pad) == x <==> cut_off(d@, pad, true, x)),
{
}

/// No trim is tried with an absurd padding, nor before there is memory.
pub proof fn lemma_trim_not(d: Dlmalloc, pad: int, trimmed: bool, replies: Seq<Reply>)
    requires
        d.wf(),
        pad >= usize::MAX + 1 - 16 * arith::word() || d@.top == 0,
    ensures
        d@.trim(pad, trimmed, replies) == (d@, false),
{
}

/// A trim makes the newest segment and the top chunk shorter by what the system took of them, and,
/// whether it took any, all the idle segments that it has taken are gone too. It reports whether
/// the footprint fell. The threshold for the next trim is the default one after the top chunk was
/// cut, and out of reach after nothing was taken of more than it.
#[verifier::rlimit(50)]
pub proof fn lemma_trim_segments(
    d: Dlmalloc,
    pad: int,
    trimmed: bool,
    replies: Seq<Reply>,
    x: int,
)
    requires
        d.wf(),
        0 <= pad < usize::MAX + 1 - 16 * arith::word(),
        d@.top != 0,
        cut_off(d@, pad, trimmed, x),
    ensures
        ({
            let h = d@;
            let (g, r) = h.trim(pad, trimmed, replies);
            let s = h.segs[0];
            &&& g.segs == seq![Seg { size: s.size - x, ..s }] + kept(h, 1, replies)
            &&& g.footprint == h.footprint - x - bytes_taken(h, 1, replies)
            &&& r <==> g.footprint < h.footprint
            &&& !r ==> g.footprint == h.footprint
            &&& (g.top, g.topsize) == (h.top, h.topsize - x)
            &&& g.trim_check == if x > 0 {
                2097152
            } else if !r && h.topsize > h.trim_check {
                usize::MAX as int
            } else {
                h.trim_check
            }
            &&& g.release_checks == if h.segs.len() - 1 > 4095 {
                h.segs.len() - 1
            } else {
                4095
            }
        }),
{
    let h = d@;
    let h2 = lemma_cut(d, pad, trimmed, x);
    lemma_release_from(h2, 1, replies, 0);
    lemma_shift(h, h2, 0, 1, replies, 0, Seq::empty());
    assert(h2.segs.subrange(0, 1) =~= seq![Seg { size: h.segs[0].size - x, ..h.segs[0] }]);
    lemma_bytes(d, 1, replies);
}

/// What a trim leaves of the chunks and the lists, whether the top chunk was cut or not.
#[verifier::rlimit(50)]
pub proof fn lemma_trim_chunks(
    d: Dlmalloc,
    pad: int,
    trimmed: bool,
    replies: Seq<Reply>,
    x: int,
    t: int,
)
    requires
        d.wf(),
        0 <= pad < usize::MAX + 1 - 16 * arith::word(),
        d@.top != 0,
        cut_off(d@, pad, trimmed, x),
    ensures
        ({
            let h = d@;
            let g = h.trim(pad, trimmed, replies).0;
            &&& forall|q: int| #[trigger]
                g.chunks.contains_key(q) <==> h.chunks.contains_key(q) && !gone(h, 1, replies, q)
            &&& g.chunks[h.top] == (Block { size: h.topsize - x, tag: Tag::Top })
            &&& forall|q: int| #[trigger]
                g.chunks.contains_key(q) && q != h.top ==> g.chunks[q] == h.chunks[q]
            &&& free_list(g, t) == relisted(h, 1, replies, t, free_list(h, t))
            &&& (g.dv, g.dvsize) == if asked(h, 1, replies, h.dv) {
                (0, 0)
            } else {
                (h.dv, h.dvsize)
            }
            &&& g.max_footprint == h.max_footprint
            &&& g.least_addr == h.least_addr
            &&& g.origins == h.origins
        }),
{
    let h = d@;
    let h2 = lemma_cut(d, pad, trimmed, x);
    let g2 = h2.release_from(1, replies).0;
    let g = h.trim(pad, trimmed, replies).0;
    lemma_release_from(h2, 1, replies, t);
    lemma_shift(h, h2, 0, 1, replies, t, free_list(h, t));
    assert(free_list(h2, t) == free_list(h, t));
    assert(free_list(g, t) == free_list(g2, t));
    assert(g.chunks == g2.chunks);
    assert(g.chunks.contains_key(h.top)) by {
        if gone(h2, 1, replies, h.top) {
            let i = choose|i: int| #[trigger]
                taken(h2, 1, replies, i) && h2.segs[i].base <= h.top < h2.segs[i].base
                    + h2.segs[i].size;
            assert(h2.segs[i] == h.segs[i]);
            assert(state::seg_ok(h.chunks, h.segs, h.top, 0));
            assert(state::seg_ok(h.chunks, h.segs, h.top, i));
            assert(state::segs_apart(h.segs[0], h.segs[i]));
        }
    }
}

/// The state after the top chunk was cut.
#[verifier::rlimit(50)]
proof fn lemma_cut(d: Dlmalloc, pad: int, trimmed: bool, x: int) -> (h2: Heap)
    requires
        d.wf(),
        0 <= pad < usize::MAX + 1 - 16 * arith::word(),
        d@.top != 0,
        cut_off(d@, pad, trimmed, x),
    ensures
        x >= 0,
        orderly(h2),
        h2 == if x > 0 { d@.shrink(x) } else { d@ },
        forall|replies: Seq<Reply>| #[trigger]
            d@.trim(pad, trimmed, replies) == {
                let (g, r) = h2.release(replies);
                (
                    if x + r == 0 && g.topsize > g.trim_check {
                        Heap { trim_check: usize::MAX as int, ..g }
                    } else {
                        g
                    },
                    x + r != 0,
                )
            },
        h2.segs.len() == d@.segs.len(),
        h2.segs.len() > 0,
        h2.segs[0] == (Seg { size: d@.segs[0].size - x, ..d@.segs[0] }),
        forall|i: int| 1 <= i < h2.segs.len() ==> #[trigger] h2.segs[i] == d@.segs[i],
        forall|i: int| 1 <= i < h2.segs.len() ==> #[trigger] idle(h2, i) == idle(d@, i),
        d@.chunks.contains_key(d@.top),
        h2.chunks == d@.chunks.insert(d@.top, Block { size: d@.topsize - x, tag: Tag::Top }),
{
    let h = d@;
    let h2 = if x > 0 { h.shrink(x) } else { h };
    lemma_orderly(d);
    crate::grow::lemma_newest(d);
    assert(h.chunks.contains_key(h.top));
    assert(h.chunks[h.top] == (Block { size: h.topsize, tag: Tag::Top }));
    assert(h2.chunks =~= h.chunks.insert(h.top, Block { size: h.topsize - x, tag: Tag::Top }));
    assert forall|i: int| 1 <= i < h2.segs.len() implies #[trigger] idle(h2, i) == idle(h, i) by {
        assert(h2.segs[i] == h.segs[i]);
        assert forall|q: int| #[trigger]
            h2.chunks.contains_key(q) && h2.chunks[q].tag is Used <==> h.chunks.contains_key(q)
                && h.chunks[q].tag is Used by {}
        if idle(h2, i) {
            assert forall|q: int| #[trigger]
                h.chunks.contains_key(q) && h.segs[i].base <= q < h.segs[i].base
                    + h.segs[i].size implies !(h.chunks[q].tag is Used) by {
                assert(h2.chunks.contains_key(q));
            }
        }
    }
    lemma_cut_orderly(d, h2, x);
    h2
}

/// The segments behind the newest are in order after the top chunk was cut.
#[verifier::rlimit(50)]
proof fn lemma_cut_orderly(d: Dlmalloc, h2: Heap, x: int)
    requires
        d.wf(),
        orderly(d@),
        h2.segs.len() == d@.segs.len(),
        h2.segs.len() > 0,
        forall|i: int| 1 <= i < h2.segs.len() ==> #[trigger] h2.segs[i] == d@.segs[i],
        forall|i: int| 1 <= i < h2.segs.len() ==> #[trigger] idle(h2, i) == idle(d@, i),
        d@.chunks.contains_key(d@.top),
        h2.chunks == d@.chunks.insert(d@.top, Block { size: d@.topsize - x, tag: Tag::Top }),
        h2.small == d@.small,
        h2.large == d@.large,
        h2.dv == d@.dv,
    ensures
        orderly(h2),
{
    let h = d@;
    assert forall|t: int| #[trigger] free_list(h2, t) == free_list(h, t) by {}
    assert forall|i: int| 1 <= i < h2.segs.len() implies #[trigger] settled(h2, i) by {
        assert(settled(h, i));
        assert(h2.segs[i] == h.segs[i]);
        assert(idle(h2, i) == idle(h, i));
        assert(state::seg_ok(h.chunks, h.segs, h.top, 0));
        assert(state::segs_apart(h.segs[0], h.segs[i]));
        assert(h.segs[i].base != h.top);
        assert(h2.unused(i) == h.unused(i));
        if idle(h, i) {
            assert forall|q: int| #[trigger]
                h2.chunks.contains_key(q) && h.segs[i].base <= q < h.segs[i].base
                    + h.segs[i].size implies q == h.segs[i].base || q == h.segs[i].at - 2
                * arith::word() by {
                assert(h.chunks.contains_key(q));
            }
            assert forall|t: int| #[trigger]
                free_list(h2, t).contains(h.segs[i].base) <==> h.segs[i].base != h2.dv && t
                    == h.segs[i].size - 10 * arith::word() by {
                assert(free_list(h, t).contains(h.segs[i].base) <==> h.segs[i].base != h.dv && t
                    == h.segs[i].size - 10 * arith::word());
            }
        }
    }
}

/// The bytes that the system has taken are not negative.
proof fn lemma_bytes(d: Dlmalloc, k: int, replies: Seq<Reply>)
    requires
        d.wf(),
        1 <= k,
    ensures
        bytes_taken(d@, k, replies) >= 0,
    decreases replies.len(),
{
    if k < d@.segs.len() && replies.len() > 0 {
        lemma_bytes(d, k + 1, replies.drop_first());
        assert(state::seg_ok(d@.chunks, d@.segs, d@.top, k));
    }
}

} // verus!
