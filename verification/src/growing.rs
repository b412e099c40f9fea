//! What a region from the system becomes.
use vstd::prelude::*;
use crate::arith;
use crate::grow;
use crate::join;
use crate::live;
use crate::regions;
use crate::returning::run_end;
use crate::serving;
use crate::serving::{free_list, without};
use crate::state;
use crate::state::{Block, Dlmalloc, Seg, Tag};

verus! {

/// The regions that can become managed memory: those of a unit of memory or more, in multiples of two
/// words, that leave the lowest addresses alone and overlap with no segment.
pub proof fn lemma_region_ok(segs: Seq<Seg>, base: int, size: int)
    ensures
        regions::region_ok(segs, base, size) <==> {
            &&& 4096 <= base
            &&& base % (2 * arith::word()) == 0
            &&& size % (2 * arith::word()) == 0
            &&& 65536 <= size
            &&& base + size <= usize::MAX
            &&& forall|i: int|
                0 <= i < segs.len() ==> base + size <= (#[trigger] segs[i]).base || segs[i].base
                    + segs[i].size <= base
        },
{
    reveal(arith::aligned);
    if usize::BITS == 32 {
        assert(2 * arith::word() == 8);
    } else {
        assert(2 * arith::word() == 16);
    }
    if regions::region_ok(segs, base, size) {
        assert forall|i: int| 0 <= i < segs.len() implies base + size <= (#[trigger] segs[i]).base
            || segs[i].base + segs[i].size <= base by {
            assert(state::segs_apart(Seg { at: 0, base, size, flags: 0 }, segs[i]));
        }
    }
}

/// The system is asked for the least whole number of units that holds the chunk and twelve words.
pub proof fn lemma_wanted(nb: int)
    requires
        0 <= nb,
    ensures
        grow::wanted(nb) % 65536 == 0,
        nb + 12 * arith::word() <= grow::wanted(nb) < nb + 12 * arith::word() + 65536,
{
}

/// The first region becomes a segment, and all of it but ten words the top chunk, which serves the
/// request.
pub proof fn lemma_grow_first(d: Dlmalloc, nb: int, base: int, size: int, flags: u32)
    requires
        d.wf(),
        4 * arith::word() <= nb,
        d@.top == 0,
        regions::region_ok(d@.segs, base, size),
    ensures
        ({
            let h = d@;
            let (g, m) = h.grow(nb, base, size, flags);
            let room = size - 10 * arith::word();
            &&& h.segs.len() == 0
            &&& g.segs == seq![Seg { at: 2048, base, size, flags }]
            &&& g.release_checks == 4095
            &&& g.trim_check == 2097152
            &&& g.least_addr == base
            &&& g.small == h.small
            &&& g.large == h.large
            &&& (g.dv, g.dvsize) == (h.dv, h.dvsize)
            &&& if nb < room {
                &&& m == base + 2 * arith::word()
                &&& (g.top, g.topsize) == (base + nb, room - nb)
                &&& g.chunks == Map::<int, Block>::empty().insert(
                    base,
                    Block { size: nb, tag: Tag::Used },
                ).insert(base + nb, Block { size: room - nb, tag: Tag::Top })
            } else {
                &&& m == 0
                &&& (g.top, g.topsize) == (base, room)
                &&& g.chunks == Map::<int, Block>::empty().insert(
                    base,
                    Block { size: room, tag: Tag::Top },
                )
            }
        }),
{
    let h = d@;
    regions::lemma_nothing(d);
    let g = h.grow(nb, base, size, flags).0;
    let room = size - 10 * arith::word();
    if nb < room {
        assert(g.chunks =~= Map::<int, Block>::empty().insert(
            base,
            Block { size: nb, tag: Tag::Used },
        ).insert(base + nb, Block { size: room - nb, tag: Tag::Top }));
    } else {
        assert(g.chunks =~= Map::<int, Block>::empty().insert(
            base,
            Block { size: room, tag: Tag::Top },
        ));
    }
}

/// A region of the same kind that starts where the newest segment ends makes that segment longer,
/// and the top chunk with it: there are as many segments as before, and the request is served where
/// the top chunk started.
pub proof fn lemma_grow_behind(d: Dlmalloc, nb: int, base: int, size: int, flags: u32)
    requires
        d.wf(),
        4 * arith::word() <= nb,
        d@.top != 0,
        regions::region_ok(d@.segs, base, size),
        d@.segs[0].base + d@.segs[0].size == base,
        d@.segs[0].flags % 2 == 0,
        d@.segs[0].flags / 2 == flags,
    ensures
        ({
            let h = d@;
            let (g, m) = h.grow(nb, base, size, flags);
            let room = h.topsize + size;
            &&& g.segs.len() == h.segs.len()
            &&& g.segs[0] == (Seg { size: h.segs[0].size + size, ..h.segs[0] })
            &&& forall|i: int| 1 <= i < h.segs.len() ==> #[trigger] g.segs[i] == h.segs[i]
            &&& g.trim_check == 2097152
            &&& g.release_checks == h.release_checks
            &&& g.small == h.small
            &&& g.large == h.large
            &&& (g.dv, g.dvsize) == (h.dv, h.dvsize)
            &&& if nb < room {
                &&& m == h.top + 2 * arith::word()
                &&& (g.top, g.topsize) == (h.top + nb, room - nb)
                &&& !h.chunks.contains_key(h.top + nb)
                &&& g.chunks == h.chunks.insert(h.top, Block { size: nb, tag: Tag::Used }).insert(
                    h.top + nb,
                    Block { size: room - nb, tag: Tag::Top },
                )
            } else {
                &&& m == 0
                &&& (g.top, g.topsize) == (h.top, room)
                &&& g.chunks == h.chunks.insert(h.top, Block { size: room, tag: Tag::Top })
            }
        }),
{
    let h = d@;
    grow::lemma_newest(d);
    let g = h.grow(nb, base, size, flags).0;
    let room = h.topsize + size;
    if nb < room {
        if h.chunks.contains_key(h.top + nb) {
            live::lemma_behind_top(d, h.top + nb);
            assert(state::chunk_ok(h.chunks, d.mem.heads@, d.mem.feet@, h.top + nb));
            regions::lemma_outside(h.chunks, h.segs, h.top, base, size, h.top + nb);
        }
        assert(g.chunks =~= h.chunks.insert(h.top, Block { size: nb, tag: Tag::Used }).insert(
            h.top + nb,
            Block { size: room - nb, tag: Tag::Top },
        ));
    }
}

/// A region of the same kind that ends where segment `j` starts, and does not start where the newest
/// ends, makes segment `j` longer. Its start serves the request. The rest is free, together with
/// what is free behind it, and goes to the end of the list for its size, unless it is now part of
/// the top chunk or of the designated victim.
pub proof fn lemma_grow_front(d: Dlmalloc, nb: int, base: int, size: int, flags: u32, j: int)
    requires
        d.wf(),
        4 * arith::word() <= nb <= size - 4 * arith::word(),
        d@.top != 0,
        regions::region_ok(d@.segs, base, size),
        !(d@.segs[0].base + d@.segs[0].size == base && d@.segs[0].flags % 2 == 0
            && d@.segs[0].flags / 2 == flags),
        0 <= j < d@.segs.len(),
        d@.segs[j].base == base + size,
        d@.segs[j].flags % 2 == 0,
        d@.segs[j].flags / 2 == flags,
    ensures
        ({
            let h = d@;
            let c = h.chunks;
            let (g, m) = h.grow(nb, base, size, flags);
            let n = base + size;
            let a = base + nb;
            let e = run_end(c, n);
            &&& m == base + 2 * arith::word()
            &&& g.segs.len() == h.segs.len()
            &&& g.segs[j] == (Seg { base, size: h.segs[j].size + size, ..h.segs[j] })
            &&& forall|i: int| 0 <= i < h.segs.len() && i != j ==> #[trigger] g.segs[i] == h.segs[i]
            &&& g.trim_check == h.trim_check
            &&& g.release_checks == h.release_checks
            &&& (g.top, g.topsize) == if n == h.top {
                (a, e - a)
            } else {
                (h.top, h.topsize)
            }
            &&& (g.dv, g.dvsize) == if n == h.dv {
                (a, e - a)
            } else {
                (h.dv, h.dvsize)
            }
            &&& g.chunks.contains_key(base)
            &&& g.chunks[base] == (Block { size: nb, tag: Tag::Used })
            &&& g.chunks.contains_key(a)
            &&& g.chunks[a] == (Block {
                size: e - a,
                tag: if n == h.top {
                    Tag::Top
                } else {
                    Tag::Free
                },
            })
            &&& forall|q: int|
                q != a && q != base ==> (#[trigger] g.chunks.contains_key(q) <==> c.contains_key(q)
                    && !(n <= q < e))
            &&& forall|q: int| #[trigger]
                g.chunks.contains_key(q) && q != a && q != base ==> g.chunks[q] == c[q]
            &&& forall|t: int| #[trigger]
                free_list(g, t) == {
                    let l = without(free_list(h, t), n);
                    if n != h.top && n != h.dv && t == e - a {
                        l.push(a)
                    } else {
                        l
                    }
                }
        }),
{
    let h = d@;
    let c = h.chunks;
    let segs = h.segs;
    let n = base + size;
    let a = base + nb;
    let e = run_end(c, n);
    let g = h.grow(nb, base, size, flags).0;
    assert(grow::starts_at(segs, j, n));
    let k = grow::seg_at(segs, n);
    assert(grow::starts_at(segs, k, n));
    assert(state::seg_ok(c, segs, h.top, j));
    assert(state::seg_ok(c, segs, h.top, k));
    if j < k {
        assert(state::segs_apart(segs[j], segs[k]));
    }
    if k < j {
        assert(state::segs_apart(segs[k], segs[j]));
    }
    assert(k == j);
    assert(c.contains_key(n));
    assert(state::chunk_ok(c, d.mem.heads@, d.mem.feet@, n));
    assert(n == h.top <==> c[n].tag is Top);
    assert forall|q: int| #[trigger] c.contains_key(q) implies q < base || n <= q by {
        assert(state::chunk_ok(c, d.mem.heads@, d.mem.feet@, q));
        regions::lemma_outside(c, segs, h.top, base, size, q);
    }
    let h1 = h.reach(j, base, size, nb);
    let h2 = h1.absorb(a, size - nb);
    assert(h1.chunks[n] == c[n]);
    let t0 = h1.run_size(a, size - nb);
    assert(t0 == e - a);
    assert(g.chunks == join::join(
        h1.chunks,
        a,
        t0,
        if n == h.top { Tag::Top } else { Tag::Free },
    ));
    assert forall|q: int| #[trigger] c.contains_key(q) && a <= q implies n <= q by {}
    assert(!c.contains_key(a) && !c.contains_key(base));
    assert(h.dv != a) by {
        crate::free::lemma_no_zero(d);
        assert(h.dv != 0 ==> c.contains_key(h.dv));
    }
    assert forall|t: int| #[trigger] free_list(g, t) == {
        let l = without(free_list(h, t), n);
        if n != h.top && n != h.dv && t == e - a {
            l.push(a)
        } else {
            l
        }
    } by {
        assert(free_list(h1, t) == free_list(h, t));
        crate::returning::lemma_lists_without(d, n, t);
        let hn = h.take(c[n].size, n);
        if n != h.top && n != h.dv && c[n].tag is Free {
            assert(free_list(h2, t) == free_list(h1.take(c[n].size, n), t));
            assert(free_list(h1.take(c[n].size, n), t) == free_list(hn, t));
        } else {
            assert(free_list(h2, t) == free_list(h1, t));
        }
        serving::lemma_put_list(h2, e - a, a, t);
    }
}

/// Any other region becomes the newest segment, and all of it but ten words the top chunk, which
/// serves the request. The segments before it keep their order. The top chunk before it is free at
/// the end of the list for its size, and a chunk of six words behind it holds the record of its
/// segment; if it had less than four words, that chunk takes its place.
pub proof fn lemma_grow_elsewhere(d: Dlmalloc, nb: int, base: int, size: int, flags: u32)
    requires
        d.wf(),
        4 * arith::word() <= nb,
        d@.top != 0,
        regions::region_ok(d@.segs, base, size),
        !(d@.segs[0].base + d@.segs[0].size == base && d@.segs[0].flags % 2 == 0
            && d@.segs[0].flags / 2 == flags),
        forall|j: int|
            #![trigger d@.segs[j]]
            0 <= j < d@.segs.len() ==> !(d@.segs[j].base == base + size && d@.segs[j].flags % 2 == 0
                && d@.segs[j].flags / 2 == flags),
    ensures
        ({
            let h = d@;
            let (g, m) = h.grow(nb, base, size, flags);
            let w = arith::word();
            let room = size - 10 * w;
            let stays = h.topsize >= 4 * w;
            let rec = if stays { h.top + h.topsize } else { h.top };
            let served = nb < room;
            &&& g.segs.len() == h.segs.len() + 1
            &&& g.segs[0] == (Seg { at: 2048, base, size, flags })
            &&& g.segs[1] == (Seg { at: rec + 2 * w, ..h.segs[0] })
            &&& forall|i: int| 1 <= i < h.segs.len() ==> g.segs[i + 1] == #[trigger] h.segs[i]
            &&& g.trim_check == 2097152
            &&& g.release_checks == h.release_checks
            &&& (g.dv, g.dvsize) == (h.dv, h.dvsize)
            &&& m == if served { base + 2 * w } else { 0 }
            &&& (g.top, g.topsize) == if served { (base + nb, room - nb) } else { (base, room) }
            &&& forall|t: int| #[trigger]
                free_list(g, t) == if stays && t == h.topsize {
                    free_list(h, t).push(h.top)
                } else {
                    free_list(h, t)
                }
            &&& forall|q: int| #[trigger]
                g.chunks.contains_key(q) <==> h.chunks.contains_key(q) || q == rec || q == base || (
                served && q == base + nb)
            &&& g.chunks[rec] == (Block { size: 6 * w, tag: Tag::Record })
            &&& stays ==> g.chunks[h.top] == (Block { size: h.topsize, tag: Tag::Free })
            &&& served ==> g.chunks[base] == (Block { size: nb, tag: Tag::Used })
            &&& served ==> g.chunks[base + nb] == (Block { size: room - nb, tag: Tag::Top })
            &&& !served ==> g.chunks[base] == (Block { size: room, tag: Tag::Top })
            &&& forall|q: int| #[trigger]
                h.chunks.contains_key(q) && q != h.top ==> g.chunks[q] == h.chunks[q]
        }),
{
    let h = d@;
    let c = h.chunks;
    let segs = h.segs;
    let g = h.grow(nb, base, size, flags).0;
    grow::lemma_newest(d);
    let k = grow::seg_at(segs, base + size);
    assert(!h.prepends(base, size, flags)) by {
        if h.prepends(base, size, flags) {
            assert(grow::starts_at(segs, k, base + size));
            assert(segs[k].base == base + size);
        }
    }
    let h1 = h.add(base, size, flags);
    let rec = regions::record_chunk(h.top, h.topsize);
    assert forall|q: int| #[trigger] c.contains_key(q) implies q < base || base + size <= q by {
        assert(state::chunk_ok(c, d.mem.heads@, d.mem.feet@, q));
        regions::lemma_outside(c, segs, h.top, base, size, q);
    }
    if rec != h.top && c.contains_key(rec) {
        live::lemma_behind_top(d, rec);
    }
    assert(rec != base && !(base <= rec < base + size)) by {
        assert(state::segs_apart(Seg { at: 0, base, size, flags: 0 }, segs[0]));
    }
    assert(c.contains_key(h.top));
    assert forall|t: int| #[trigger] free_list(g, t) == if h.topsize >= 4 * arith::word() && t
        == h.topsize {
        free_list(h, t).push(h.top)
    } else {
        free_list(h, t)
    } by {
        serving::lemma_put_list(h, h.topsize, h.top, t);
        assert(free_list(g, t) == free_list(h1, t));
        assert(free_list(h1, t) == if h.topsize >= 4 * arith::word() {
            free_list(h.put(h.topsize, h.top), t)
        } else {
            free_list(h, t)
        });
    }
}

/// Every region counts, and what it does not concern stays as it was.
pub proof fn lemma_grow_books(d: Dlmalloc, nb: int, base: int, size: int, flags: u32)
    requires
        d.wf(),
        regions::region_ok(d@.segs, base, size),
    ensures
        ({
            let h = d@;
            let g = h.grow(nb, base, size, flags).0;
            &&& g.footprint == h.footprint + size
            &&& g.max_footprint == if h.footprint + size > h.max_footprint {
                h.footprint + size
            } else {
                h.max_footprint
            }
            &&& g.origins == h.origins
        }),
{
}

} // verus!
