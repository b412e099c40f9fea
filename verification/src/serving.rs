//! What a request gets from memory at hand, and what it leaves.
use vstd::prelude::*;
use crate::arith;
use crate::malloc;
use crate::search;
use crate::state;
use crate::state::{Block, Dlmalloc, Heap, Tag};

verus! {

/// The chunks of size `s` that are in a free list, in the order of the list.
pub open spec fn free_list(h: Heap, s: int) -> Seq<int> {
    let lists = if s < 256 { h.small } else { h.large };
    if lists.contains_key(s) {
        lists[s]
    } else {
        Seq::empty()
    }
}

/// The list without `x`.
pub open spec fn without(l: Seq<int>, x: int) -> Seq<int> {
    if l.contains(x) {
        l.remove(l.index_of(x))
    } else {
        l
    }
}

/// The chunk for a request is the least multiple of two words that has room for the request and one
/// word, and for four words.
pub proof fn lemma_request_least(size: int, x: int)
    requires
        0 <= size,
    ensures
        malloc::request(size) % (2 * arith::word()) == 0,
        malloc::request(size) >= 4 * arith::word(),
        malloc::request(size) >= size + arith::word(),
        x % (2 * arith::word()) == 0 && x >= 4 * arith::word() && x >= size + arith::word()
            ==> malloc::request(size) <= x,
{
    if usize::BITS == 32 {
        assert(2 * arith::word() == 8);
        assert(malloc::request(size) % 8 == 0);
    } else {
        assert(2 * arith::word() == 16);
        assert(malloc::request(size) % 16 == 0);
    }
}

/// A free chunk is the designated victim or in the list for its size.
pub(crate) proof fn lemma_in_list(d: Dlmalloc, q: int)
    requires
        d.wf(),
        d@.chunks.contains_key(q),
        d@.chunks[q].tag is Free,
    ensures
        ({
            let h = d@;
            let t = h.chunks[q].size;
            if q == h.dv {
                t == h.dvsize
            } else {
                &&& state::in_bin(h.small, h.large, t, q)
                &&& free_list(h, t).contains(q)
                &&& t < 256 ==> h.small.contains_key(t)
                &&& t >= 256 ==> h.large.contains_key(t)
            }
        }),
{
    let h = d@;
    crate::free::lemma_no_zero(d);
    if q != h.dv {
        assert(state::in_bin(h.small, h.large, h.chunks[q].size, q));
    }
}

/// A list holds free chunks of its size, none of them twice.
pub(crate) proof fn lemma_of_list(d: Dlmalloc, t: int, i: int)
    requires
        d.wf(),
        0 <= i < free_list(d@, t).len(),
    ensures
        ({
            let q = free_list(d@, t)[i];
            &&& d@.chunks.contains_key(q)
            &&& d@.chunks[q] == (Block { size: t, tag: Tag::Free })
            &&& q != d@.dv
        }),
        free_list(d@, t).no_duplicates(),
{
    let l = free_list(d@, t);
    assert(l.contains(l[i]));
    assert(state::in_bin(d@.small, d@.large, t, l[i]));
    d.lemma_listed(t, l[i]);
}

/// A list after a chunk was put into it.
pub(crate) proof fn lemma_put_list(h: Heap, s: int, p: int, t: int)
    ensures
        free_list(h.put(s, p), t) == if t == s {
            free_list(h, t).push(p)
        } else {
            free_list(h, t)
        },
{
    if t == s {
        assert(free_list(h.put(s, p), t) =~= free_list(h, t).push(p));
    }
}

/// A list after a chunk was taken out of it.
pub(crate) proof fn lemma_take_list(h: Heap, s: int, p: int, t: int)
    requires
        free_list(h, s).no_duplicates(),
        free_list(h, s).contains(p),
    ensures
        free_list(h.take(s, p), t) == if t == s {
            without(free_list(h, t), p)
        } else {
            free_list(h, t)
        },
{
    let l = free_list(h, s);
    if t == s {
        if l.len() == 1 {
            let i = l.index_of(p);
            assert(0 <= i < l.len() && l[i] == p);
            assert(without(l, p) =~= Seq::empty());
        }
    }
}

/// The chunk at place `i` of a list, taken out of it.
pub(crate) proof fn lemma_without(l: Seq<int>, i: int)
    requires
        l.no_duplicates(),
        0 <= i < l.len(),
    ensures
        without(l, l[i]) == l.remove(i),
        l.index_of(l[i]) == i,
        l.contains(l[i]),
{
    let j = l.index_of(l[i]);
    assert(l.contains(l[i]));
    assert(0 <= j < l.len() && l[j] == l[i]);
}

/// A request is refused exactly if it is too large for any memory, and then, as when it wants memory
/// from the system, nothing changes. It is served from memory at hand exactly if a free chunk has as
/// many bytes as it needs, or the top chunk more.
pub proof fn lemma_malloc_served(d: Dlmalloc, size: int)
    requires
        d.wf(),
        0 <= size <= usize::MAX,
    ensures
        ({
            let h = d@;
            let nb = malloc::request(size);
            let (g, r) = h.malloc(size);
            &&& r is Refused <==> size >= usize::MAX + 1 - 16 * arith::word()
            &&& r is Ready <==> size < usize::MAX + 1 - 16 * arith::word() && (nb < h.topsize
                || exists|q: int| #[trigger]
                h.chunks.contains_key(q) && h.chunks[q].tag is Free && h.chunks[q].size >= nb)
            &&& r is Wanted ==> r->Wanted_0 == nb
            &&& !(r is Ready) ==> g == h
        }),
{
    let h = d@;
    let nb = malloc::request(size);
    malloc::lemma_request(size);
    crate::live::lemma_malloc_live(d, size);
    if size < malloc::max_request() {
        crate::laws::lemma_served(d, size);
        if search::some_fit(h.small, nb) {
            let t = choose|t: int| #[trigger] h.small.contains_key(t) && nb <= t;
            assert(state::list_ok(h.small[t], t, d.mem.heads@));
            lemma_of_list(d, t, 0);
        }
        if search::some_fit(h.large, nb) {
            let t = choose|t: int| #[trigger] h.large.contains_key(t) && nb <= t;
            assert(state::list_ok(h.large[t], t, d.mem.heads@));
            lemma_of_list(d, t, 0);
        }
        if exists|q: int| #[trigger]
            h.chunks.contains_key(q) && h.chunks[q].tag is Free && h.chunks[q].size >= nb {
            let q = choose|q: int| #[trigger]
                h.chunks.contains_key(q) && h.chunks[q].tag is Free && h.chunks[q].size >= nb;
            lemma_in_list(d, q);
        }
        if nb <= h.dvsize {
            assert(h.chunks.contains_key(h.dv));
        }
    }
}

/// Which chunk serves a request. The top chunk does only if no free chunk is large enough. A large
/// request gets the least free chunk that is, the designated victim if that is as small as any, and
/// else the first in the list. A small request gets the newest chunk of exactly its size or of the
/// next bin, failing that the designated victim if that is large enough, and else the least free
/// chunk: the newest of its list if that is a small one, the first if not.
pub proof fn lemma_malloc_choice(d: Dlmalloc, size: int, q: int)
    requires
        d.wf(),
        0 <= size <= usize::MAX,
        d@.malloc(size).1 is Ready,
    ensures
        ({
            let h = d@;
            let nb = malloc::request(size);
            let p = h.malloc(size).1->Ready_0 - 2 * arith::word();
            let s = h.chunks[p].size;
            let fits = h.chunks.contains_key(q) && h.chunks[q].tag is Free && h.chunks[q].size
                >= nb;
            &&& h.chunks.contains_key(p)
            &&& if h.chunks[p].tag is Top {
                p == h.top && nb < s && !fits
            } else {
                &&& h.chunks[p].tag is Free
                &&& nb <= s
                &&& if nb >= 256 {
                    &&& fits ==> s <= h.chunks[q].size
                    &&& p == if h.dv != 0 && h.dvsize == s {
                        h.dv
                    } else {
                        free_list(h, s)[0]
                    }
                } else if free_list(h, nb).len() > 0 {
                    p == free_list(h, nb).last()
                } else if nb + 8 < 256 && free_list(h, nb + 8).len() > 0 {
                    p == free_list(h, nb + 8).last()
                } else if nb <= h.dvsize {
                    p == h.dv
                } else {
                    &&& fits ==> s <= h.chunks[q].size
                    &&& p == if s < 256 {
                        free_list(h, s).last()
                    } else {
                        free_list(h, s)[0]
                    }
                }
            }
        }),
{
    let h = d@;
    let nb = malloc::request(size);
    malloc::lemma_request(size);
    let p = h.malloc(size).1->Ready_0 - 2 * arith::word();
    if h.chunks.contains_key(q) && h.chunks[q].tag is Free && h.chunks[q].size >= nb {
        lemma_in_list(d, q);
    }
    assert(!h.small.contains_key(256));
    lemma_source(d, size);
    assert(h.small.contains_key(nb) ==> state::list_ok(h.small[nb], nb, d.mem.heads@));
    assert(h.small.contains_key(nb + 8) ==> state::list_ok(h.small[nb + 8], nb + 8, d.mem.heads@));
}

/// Where the chunk for a request comes from.
proof fn lemma_source(d: Dlmalloc, size: int)
    requires
        d.wf(),
        0 <= size <= usize::MAX,
        d@.malloc(size).1 is Ready,
    ensures
        ({
            let h = d@;
            let nb = malloc::request(size);
            let (g, r) = h.malloc(size);
            let p = r->Ready_0 - 2 * arith::word();
            let s = h.chunks[p].size;
            let l = free_list(h, s);
            &&& h.chunks.contains_key(p)
            &&& 0 < p
            &&& p + 2 * arith::word() <= usize::MAX
            &&& s < 256 ==> h.small.contains_key(s) || p == h.dv || p == h.top
            &&& {
                ||| p == h.top && h.chunks[p].tag is Top && s == h.topsize && nb < s && g
                    == h.cut_top(nb) && h.dvsize < nb
                ||| p == h.dv && h.chunks[p].tag is Free && s == h.dvsize && nb <= s && g
                    == h.cut_dv(nb)
                ||| {
                    &&& h.chunks[p].tag is Free
                    &&& p != h.dv
                    &&& p != h.top
                    &&& nb <= s
                    &&& l.len() > 0
                    &&& l.no_duplicates()
                    &&& p == if s < 256 { l.last() } else { l[0] }
                    &&& g == if nb >= 256 {
                        h.serve(s, p, nb).bin_rest(s, p, nb)
                    } else if s == nb || s == nb + 8 {
                        h.serve(s, p, s)
                    } else {
                        h.serve(s, p, nb).keep_rest(s, p, nb)
                    }
                }
            }
            &&& p != h.dv && p != h.top && nb < 256 && s != nb && s != nb + 8 ==> h.dvsize < nb
            &&& nb >= 256 && p != h.dv && p != h.top ==> !(nb <= h.dvsize && h.dvsize <= s)
            &&& nb < 256 && h.small.contains_key(nb) ==> s == nb && p != h.dv && p != h.top
            &&& nb < 256 && !h.small.contains_key(nb) && h.small.contains_key(nb + 8) ==> s == nb
                + 8 && p != h.dv && p != h.top
            &&& nb < 256 && !h.small.contains_key(nb) && !h.small.contains_key(nb + 8) && nb
                <= h.dvsize ==> p == h.dv
            &&& nb < 256 && !h.small.contains_key(nb) && !h.small.contains_key(nb + 8) && nb
                > h.dvsize ==> p != h.dv
            &&& forall|t: int| #[trigger]
                h.small.contains_key(t) && nb <= t ==> nb < 256 && p != h.top && (
                !h.small.contains_key(nb) && !h.small.contains_key(nb + 8) && nb > h.dvsize ==> s
                    <= t)
            &&& forall|t: int| #[trigger]
                h.large.contains_key(t) && nb <= t ==> p != h.top && (nb >= 256 || (
                !h.small.contains_key(nb) && !h.small.contains_key(nb + 8) && nb > h.dvsize) ==> s
                    <= t)
            &&& nb >= 256 && nb <= h.dvsize ==> s <= h.dvsize && p != h.top
        }),
{
    let h = d@;
    let nb = malloc::request(size);
    malloc::lemma_request(size);
    if size <= 256 - 3 * arith::word() {
        if h.small.contains_key(nb) {
            lemma_from_list(d, nb);
        } else if h.small.contains_key(nb + 8) {
            lemma_from_list(d, nb + 8);
        } else if nb > h.dvsize && search::some_fit(h.small, nb) {
            let t = choose|t: int| #[trigger] h.small.contains_key(t) && nb <= t;
            search::lemma_some_least(h.small, nb, t);
            lemma_from_list(d, search::least_fit(h.small, nb));
        } else if nb > h.dvsize && search::some_fit(h.large, 0) {
            let t = choose|t: int| #[trigger] h.large.contains_key(t) && 0 <= t;
            search::lemma_some_least(h.large, 0, t);
            lemma_from_list(d, search::least_fit(h.large, 0));
        } else {
            lemma_from_rest(d, nb);
        }
    } else if h.suits_large(nb) {
        let t = choose|t: int| #[trigger] h.large.contains_key(t) && nb <= t;
        search::lemma_some_least(h.large, nb, t);
        lemma_from_list(d, search::least_fit(h.large, nb));
    } else {
        if search::some_fit(h.large, nb) {
            let t = choose|t: int| #[trigger] h.large.contains_key(t) && nb <= t;
            search::lemma_some_least(h.large, nb, t);
        }
        lemma_from_rest(d, nb);
    }
}

/// The designated victim and the top chunk.
proof fn lemma_from_rest(d: Dlmalloc, nb: int)
    requires
        d.wf(),
        4 * arith::word() <= nb,
    ensures
        ({
            let h = d@;
            &&& nb <= h.dvsize ==> {
                &&& h.chunks.contains_key(h.dv)
                &&& h.chunks[h.dv] == (Block { size: h.dvsize, tag: Tag::Free })
                &&& 0 < h.dv
                &&& h.dv + 2 * arith::word() <= usize::MAX
            }
            &&& nb < h.topsize ==> {
                &&& h.chunks.contains_key(h.top)
                &&& h.chunks[h.top] == (Block { size: h.topsize, tag: Tag::Top })
                &&& 0 < h.top
                &&& h.top + 2 * arith::word() <= usize::MAX
            }
        }),
{
    let h = d@;
    if nb <= h.dvsize {
        malloc::lemma_room(d, h.dv);
    }
    if nb < h.topsize {
        malloc::lemma_room(d, h.top);
    }
}

/// The chunk that the list of size `s` gives.
proof fn lemma_from_list(d: Dlmalloc, s: int)
    requires
        d.wf(),
        s < 256 ==> d@.small.contains_key(s),
        s >= 256 ==> d@.large.contains_key(s),
    ensures
        ({
            let h = d@;
            let l = free_list(h, s);
            let p = if s < 256 { l.last() } else { l[0] };
            &&& l.len() > 0
            &&& l.no_duplicates()
            &&& h.chunks.contains_key(p)
            &&& h.chunks[p] == (Block { size: s, tag: Tag::Free })
            &&& p != h.dv
            &&& p != h.top
            &&& 0 < p
            &&& p + 2 * arith::word() <= usize::MAX
        }),
{
    let h = d@;
    let l = free_list(h, s);
    assert(state::list_ok(l, s, d.mem.heads@));
    let i = if s < 256 { l.len() - 1 } else { 0 };
    lemma_of_list(d, s, i);
    malloc::lemma_room(d, l[i]);
    if l[i] == h.top {
        assert(h.chunks[h.top].tag is Top);
    }
}

/// What becomes of the chunk that serves a request: the client gets as many bytes as the request
/// needs, and no more unless the rest were less than four words, and the rest stays free. No other
/// chunk changes.
pub proof fn lemma_malloc_chunks(d: Dlmalloc, size: int)
    requires
        d.wf(),
        0 <= size <= usize::MAX,
        d@.malloc(size).1 is Ready,
    ensures
        ({
            let h = d@;
            let nb = malloc::request(size);
            let (g, r) = h.malloc(size);
            let p = r->Ready_0 - 2 * arith::word();
            let b = h.chunks[p];
            let n = g.chunks[p].size;
            &&& nb <= n < nb + 4 * arith::word()
            &&& n == nb || (n == b.size && b.tag is Free)
            &&& g.chunks.contains_key(p)
            &&& g.chunks[p].tag is Used
            &&& n < b.size ==> {
                &&& b.size - n >= 4 * arith::word() || b.tag is Top
                &&& !h.chunks.contains_key(p + n)
                &&& g.chunks.contains_key(p + n)
                &&& g.chunks[p + n] == (Block { size: b.size - n, tag: b.tag })
            }
            &&& forall|q: int|
                q != p && q != p + n ==> (#[trigger] g.chunks.contains_key(q)
                    <==> h.chunks.contains_key(q))
            &&& n == b.size ==> (g.chunks.contains_key(p + n) <==> h.chunks.contains_key(p + n))
            &&& forall|q: int| #[trigger]
                h.chunks.contains_key(q) && q != p ==> g.chunks[q] == h.chunks[q]
        }),
{
    let h = d@;
    let nb = malloc::request(size);
    malloc::lemma_request(size);
    lemma_source(d, size);
    let p = h.malloc(size).1->Ready_0 - 2 * arith::word();
    let c = h.chunks;
    assert(state::chunk_ok(c, d.mem.heads@, d.mem.feet@, p));
    crate::sizes::lemma_aligned_sub(c[p].size, nb);
    let g = h.malloc(size).0;
    assert(nb < c[p].size ==> !c.contains_key(p + nb));
    if c[p].tag is Free && c[p].size > nb {
        crate::sizes::lemma_aligned_least(c[p].size - nb);
    }
    assert(4 * arith::word() >= 16);
}

/// What becomes of the free lists, the designated victim and the top chunk. The chunk that serves
/// the request leaves its list. What is left of it stays the designated victim or the top chunk if
/// it was. If it was in a list, the rest of it goes to the end of the list for its size if the
/// request was a large one, and becomes the designated victim if it was a small one; the designated
/// victim before it goes to the end of the list for its size.
pub proof fn lemma_malloc_lists(d: Dlmalloc, size: int)
    requires
        d.wf(),
        0 <= size <= usize::MAX,
        d@.malloc(size).1 is Ready,
    ensures
        ({
            let h = d@;
            let nb = malloc::request(size);
            let (g, r) = h.malloc(size);
            let p = r->Ready_0 - 2 * arith::word();
            let s = h.chunks[p].size;
            let n = g.chunks[p].size;
            if p == h.top {
                &&& forall|t: int| #[trigger] free_list(g, t) == free_list(h, t)
                &&& (g.dv, g.dvsize) == (h.dv, h.dvsize)
                &&& (g.top, g.topsize) == (p + n, s - n)
            } else if p == h.dv {
                &&& forall|t: int| #[trigger] free_list(g, t) == free_list(h, t)
                &&& (g.dv, g.dvsize) == if n < s { (p + n, s - n) } else { (0, 0) }
                &&& (g.top, g.topsize) == (h.top, h.topsize)
            } else {
                &&& (g.top, g.topsize) == (h.top, h.topsize)
                &&& (g.dv, g.dvsize) == if n < s && nb < 256 {
                    (p + n, s - n)
                } else {
                    (h.dv, h.dvsize)
                }
                &&& forall|t: int| #[trigger]
                    free_list(g, t) == {
                        let l = if t == s {
                            without(free_list(h, t), p)
                        } else {
                            free_list(h, t)
                        };
                        if n < s && nb >= 256 && t == s - n {
                            l.push(p + n)
                        } else if n < s && nb < 256 && h.dv != 0 && t == h.dvsize {
                            l.push(h.dv)
                        } else {
                            l
                        }
                    }
            }
        }),
{
    let h = d@;
    let nb = malloc::request(size);
    malloc::lemma_request(size);
    lemma_source(d, size);
    lemma_malloc_chunks(d, size);
    let (g, r) = h.malloc(size);
    let p = r->Ready_0 - 2 * arith::word();
    let s = h.chunks[p].size;
    let n = g.chunks[p].size;
    if p != h.top && p != h.dv {
        let l = free_list(h, s);
        lemma_without(l, if s < 256 { l.len() - 1 } else { 0 });
        let h1 = h.serve(s, p, n);
        assert forall|t: int| #[trigger] free_list(h1, t) == if t == s {
            without(free_list(h, t), p)
        } else {
            free_list(h, t)
        } by {
            lemma_take_list(h, s, p, t);
            assert(free_list(h1, t) == free_list(h.take(s, p), t));
        }
        assert(h1.dv == h.dv && h1.dvsize == h.dvsize);
        if n < s && nb >= 256 {
            assert(g == h1.put(s - n, p + n));
            assert forall|t: int| #[trigger] free_list(g, t) == if t == s - n {
                free_list(h1, t).push(p + n)
            } else {
                free_list(h1, t)
            } by {
                lemma_put_list(h1, s - n, p + n, t);
            }
        } else if n < s {
            assert forall|t: int| #[trigger] free_list(g, t) == if h.dv != 0 && t == h.dvsize {
                free_list(h1, t).push(h.dv)
            } else {
                free_list(h1, t)
            } by {
                lemma_put_list(h1, h.dvsize, h.dv, t);
                assert(free_list(g, t) == if h.dvsize != 0 {
                    free_list(h1.put(h.dvsize, h.dv), t)
                } else {
                    free_list(h1, t)
                });
            }
        } else {
            assert(g == h1);
        }
    }
}

/// A request changes nothing else.
pub proof fn lemma_malloc_else(d: Dlmalloc, size: int)
    requires
        d.wf(),
        0 <= size <= usize::MAX,
    ensures
        ({
            let h = d@;
            let g = h.malloc(size).0;
            &&& g.segs == h.segs
            &&& g.footprint == h.footprint
            &&& g.max_footprint == h.max_footprint
            &&& g.trim_check == h.trim_check
            &&& g.least_addr == h.least_addr
            &&& g.release_checks == h.release_checks
            &&& g.origins == h.origins
        }),
{
}

/// A chunk is in a bin exactly if it is in the list for its size.
pub proof fn lemma_listed(h: Heap, s: int, p: int)
    ensures
        state::in_bin(h.small, h.large, s, p) <==> free_list(h, s).contains(p),
{
}

} // verus!
