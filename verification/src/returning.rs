//! What taking memory back does.
use vstd::prelude::*;
use crate::arith;
use crate::join;
use crate::serving;
use crate::serving::{free_list, without};
use crate::state;
use crate::state::{Block, Dlmalloc, Tag};

verus! {

/// The free chunk that ends where chunk `p` starts is at `a`, or there is none and `a` is `p`.
pub open spec fn starts_run(c: Map<int, Block>, p: int, a: int) -> bool {
    if a == p {
        forall|q: int| #[trigger] c.contains_key(q) && c[q].tag is Free ==> q + c[q].size != p
    } else {
        c.contains_key(a) && c[a].tag is Free && a + c[a].size == p
    }
}

/// The end of chunk `n`, unless it is in use; then where it starts.
pub open spec fn run_end(c: Map<int, Block>, n: int) -> int {
    if c[n].tag is Used || c[n].tag is Record {
        n
    } else {
        n + c[n].size
    }
}

/// The chunks around one that is about to be freed.
proof fn lemma_around(d: Dlmalloc, p: int, a: int)
    requires
        d.wf(),
        d@.live().contains_key(p),
        starts_run(d@.chunks, p, a),
    ensures
        ({
            let h = d@;
            let c = h.chunks;
            let n = p + c[p].size;
            &&& c.contains_key(p)
            &&& c[p].size > 0
            &&& c.contains_key(n)
            &&& c[n].size > 0
            &&& c.contains_key(a)
            &&& n == h.top <==> c[n].tag is Top
            &&& h.top != 0
            &&& !c.contains_key(0)
            &&& join::has_prior(c, p) <==> a != p
            &&& a != p ==> join::prior(c, p) == a
            &&& forall|q: int| #[trigger] c.contains_key(q) && a <= q < n ==> q == a || q == p
            &&& c[n].tag is Free ==> c.contains_key(n + c[n].size)
        }),
{
    let h = d@;
    let c = h.chunks;
    let n = p + c[p].size;
    assert(state::chunk_ok(c, d.mem.heads@, d.mem.feet@, p));
    assert(state::chunk_ok(c, d.mem.heads@, d.mem.feet@, n));
    crate::free::lemma_no_zero(d);
    crate::carve::lemma_top_there(d, p);
    join::lemma_prior(c, d.mem.heads@, d.mem.feet@, p);
    if a != p {
        assert(join::is_prior(c, a, p));
        let b = join::prior(c, p);
        assert(join::is_prior(c, b, p));
        assert(state::chunk_ok(c, d.mem.heads@, d.mem.feet@, a));
        assert(state::chunk_ok(c, d.mem.heads@, d.mem.feet@, b));
    } else if join::has_prior(c, p) {
        assert(join::is_prior(c, join::prior(c, p), p));
    }
    assert forall|q: int| #[trigger] c.contains_key(q) && a <= q < n implies q == a || q == p by {
        assert(state::chunk_ok(c, d.mem.heads@, d.mem.feet@, q));
        if q != a && q != p {
            assert(q > a ==> a + c[a].size <= q);
            assert(q > p ==> p + c[p].size <= q);
        }
    }
    if c[n].tag is Free {
        assert(state::chunk_ok(c, d.mem.heads@, d.mem.feet@, n));
    }
}

/// A block that is taken back becomes one chunk with the free chunk in front of it and the free
/// chunk or the top chunk behind it, and no other chunk changes. The whole is the top chunk if that
/// was behind it, and else it is free.
pub proof fn lemma_free_joins(d: Dlmalloc, mem: int, a: int)
    requires
        d.wf(),
        d@.live().contains_key(mem - 2 * arith::word()),
        starts_run(d@.chunks, mem - 2 * arith::word(), a),
    ensures
        ({
            let h = d@;
            let g = h.free(mem).0;
            let p = mem - 2 * arith::word();
            let n = p + h.chunks[p].size;
            let e = run_end(h.chunks, n);
            &&& g.chunks.contains_key(a)
            &&& g.chunks[a] == (Block {
                size: e - a,
                tag: if n == h.top {
                    Tag::Top
                } else {
                    Tag::Free
                },
            })
            &&& forall|q: int|
                q != a ==> (#[trigger] g.chunks.contains_key(q) <==> h.chunks.contains_key(q) && !(a
                    <= q < e))
            &&& forall|q: int| #[trigger]
                g.chunks.contains_key(q) && q != a ==> g.chunks[q] == h.chunks[q]
        }),
{
    let h = d@;
    let c = h.chunks;
    let p = mem - 2 * arith::word();
    let n = p + c[p].size;
    lemma_around(d, p, a);
    let g = h.free(mem).0;
    let t = run_end(c, n) - a;
    assert(g.chunks == join::join(c, a, t, if n == h.top { Tag::Top } else { Tag::Free }));
}

/// Which chunks are the designated victim and the top chunk after a block was taken back.
pub proof fn lemma_free_special(d: Dlmalloc, mem: int, a: int)
    requires
        d.wf(),
        d@.live().contains_key(mem - 2 * arith::word()),
        starts_run(d@.chunks, mem - 2 * arith::word(), a),
    ensures
        ({
            let h = d@;
            let g = h.free(mem).0;
            let p = mem - 2 * arith::word();
            let n = p + h.chunks[p].size;
            let e = run_end(h.chunks, n);
            &&& (g.top, g.topsize) == if n == h.top {
                (a, e - a)
            } else {
                (h.top, h.topsize)
            }
            &&& (g.dv, g.dvsize) == if n == h.top && a == h.dv {
                (0, 0)
            } else if n == h.dv || a == h.dv {
                (a, e - a)
            } else {
                (h.dv, h.dvsize)
            }
        }),
{
    lemma_around(d, mem - 2 * arith::word(), a);
}

/// What becomes of the free lists when a block is taken back: the chunks that it is joined with
/// leave them, and the whole goes to the end of the list for its size, unless it is the top chunk or
/// the designated victim.
pub proof fn lemma_free_lists_after(d: Dlmalloc, mem: int, a: int, t: int)
    requires
        d.wf(),
        d@.live().contains_key(mem - 2 * arith::word()),
        starts_run(d@.chunks, mem - 2 * arith::word(), a),
    ensures
        ({
            let h = d@;
            let g = h.free(mem).0;
            let p = mem - 2 * arith::word();
            let n = p + h.chunks[p].size;
            let e = run_end(h.chunks, n);
            let l = without(without(free_list(h, t), a), n);
            free_list(g, t) == if n != h.top && n != h.dv && a != h.dv && t == e - a {
                l.push(a)
            } else {
                l
            }
        }),
{
    let h = d@;
    let c = h.chunks;
    let p = mem - 2 * arith::word();
    let n = p + c[p].size;
    lemma_around(d, p, a);
    let g = h.free(mem).0;
    let size = n - a;
    let e = run_end(c, n);
    let h1 = if a != p && a != h.dv { h.take(c[a].size, a) } else { h };
    lemma_lists_without(d, a, t);
    lemma_lists_without(d, a, c[n].size);
    lemma_lists_without(d, n, t);
    assert(h1.chunks == c && h1.dv == h.dv && h1.top == h.top);
    let h2 = if n != h.top && n != h.dv && c[n].tag is Free { h1.take(c[n].size, n) } else { h1 };
    let l0 = free_list(h, t);
    let l1 = without(l0, a);
    assert(free_list(h1, t) == l1);
    lemma_without_kept(l0, a);
    lemma_without_other(l0, a, n);
    if n != h.top && n != h.dv && c[n].tag is Free {
        let ln = free_list(h, c[n].size);
        serving::lemma_in_list(d, n);
        lemma_without_kept(ln, a);
        lemma_without_other(ln, a, n);
        lemma_list_distinct(d, c[n].size);
        assert(free_list(h1, c[n].size) == without(ln, a));
        serving::lemma_take_list(h1, c[n].size, n, t);
        if t != c[n].size {
            assert(!l0.contains(n));
        }
    } else {
        assert(!l0.contains(n));
    }
    assert(free_list(h2, t) == without(l1, n));
    let h3 = h1.absorb(a, size);
    assert(free_list(h3, t) == free_list(h2, t));
    serving::lemma_put_list(h3, e - a, a, t);
    if n != h.top && n != h.dv && a != h.dv {
        assert(free_list(g, t) == free_list(h3.put(e - a, a), t));
    } else {
        assert(free_list(g, t) == free_list(h3, t));
    }
}

/// No list holds a chunk twice.
pub(crate) proof fn lemma_list_distinct(d: Dlmalloc, t: int)
    requires
        d.wf(),
    ensures
        free_list(d@, t).no_duplicates(),
{
    if free_list(d@, t).len() > 0 {
        serving::lemma_of_list(d, t, 0);
    }
}

/// The lists without chunk `a`, and which one it is in.
pub(crate) proof fn lemma_lists_without(d: Dlmalloc, a: int, t: int)
    requires
        d.wf(),
        d@.chunks.contains_key(a),
    ensures
        ({
            let h = d@;
            let c = h.chunks;
            &&& free_list(h, t).contains(a) <==> c[a].tag is Free && a != h.dv && c[a].size == t
            &&& c[a].tag is Free && a != h.dv ==> free_list(h.take(c[a].size, a), t) == without(
                free_list(h, t),
                a,
            )
            &&& !(c[a].tag is Free && a != h.dv) ==> without(free_list(h, t), a) == free_list(h, t)
            &&& free_list(h, t).no_duplicates()
        }),
{
    let h = d@;
    let c = h.chunks;
    let l = free_list(h, t);
    lemma_list_distinct(d, t);
    if l.contains(a) {
        let i = choose|i: int| 0 <= i < l.len() && l[i] == a;
        serving::lemma_of_list(d, t, i);
    }
    if c[a].tag is Free && a != h.dv {
        serving::lemma_in_list(d, a);
        lemma_list_distinct(d, c[a].size);
        serving::lemma_take_list(h, c[a].size, a, t);
    }
}

/// What is left of a list holds nothing twice.
pub(crate) proof fn lemma_without_kept(l: Seq<int>, x: int)
    requires
        l.no_duplicates(),
    ensures
        without(l, x).no_duplicates(),
{
    if l.contains(x) {
        let j = l.index_of(x);
        assert(0 <= j < l.len() && l[j] == x);
        let m = l.remove(j);
        assert forall|i: int, k: int|
            0 <= i < m.len() && 0 <= k < m.len() && i != k implies m[i] != m[k] by {
            assert(m[i] == l[if i < j { i } else { i + 1 }]);
            assert(m[k] == l[if k < j { k } else { k + 1 }]);
        }
    }
}

/// What is left of a list holds the same but for one chunk.
pub(crate) proof fn lemma_without_other(l: Seq<int>, x: int, y: int)
    requires
        l.no_duplicates(),
        x != y,
    ensures
        without(l, x).contains(y) <==> l.contains(y),
{
    if l.contains(x) {
        let j = l.index_of(x);
        assert(0 <= j < l.len() && l[j] == x);
        let m = l.remove(j);
        if l.contains(y) {
            let i = choose|i: int| 0 <= i < l.len() && l[i] == y;
            let k = if i < j { i } else { i - 1 };
            assert(m[k] == y);
        }
        if m.contains(y) {
            let k = choose|k: int| 0 <= k < m.len() && m[k] == y;
            assert(l[if k < j { k } else { k + 1 }] == y);
        }
    }
}

/// What taking a block back makes due. A trim is due exactly if the whole becomes the top chunk and
/// that has more bytes than the threshold. Each large chunk that comes into a list uses up one
/// check, and a release is due exactly if it was the last.
pub proof fn lemma_free_due(d: Dlmalloc, mem: int, a: int)
    requires
        d.wf(),
        d@.live().contains_key(mem - 2 * arith::word()),
        starts_run(d@.chunks, mem - 2 * arith::word(), a),
        d@.release_checks > 0,
    ensures
        ({
            let h = d@;
            let (g, r) = h.free(mem);
            let p = mem - 2 * arith::word();
            let n = p + h.chunks[p].size;
            let e = run_end(h.chunks, n);
            let counts = n != h.top && n != h.dv && a != h.dv && e - a >= 256;
            &&& r is Trim <==> n == h.top && g.topsize > h.trim_check
            &&& r is Release <==> counts && h.release_checks == 1
            &&& g.release_checks == if counts {
                h.release_checks - 1
            } else {
                h.release_checks
            }
        }),
{
    lemma_around(d, mem - 2 * arith::word(), a);
}

/// Taking a block back changes nothing else.
pub proof fn lemma_free_else(d: Dlmalloc, mem: int)
    requires
        d.wf(),
        d@.live().contains_key(mem - 2 * arith::word()),
    ensures
        ({
            let h = d@;
            let g = h.free(mem).0;
            &&& g.segs == h.segs
            &&& g.footprint == h.footprint
            &&& g.max_footprint == h.max_footprint
            &&& g.trim_check == h.trim_check
            &&& g.least_addr == h.least_addr
            &&& g.origins == h.origins
        }),
{
}

} // verus!
