//! Handing out memory of one chunk.
use vstd::prelude::*;
use crate::arith;
use crate::chunk::{Chunk, PINUSE};
use crate::freelists;
use crate::phys;
use crate::segments;
use crate::sizes;
use crate::state;
use crate::state::{Block, Dlmalloc, Heap, Model, Tag};
use crate::words;

verus! {

/// A chunk has left the free lists.
pub(crate) proof fn lemma_unlinked(o: Dlmalloc, d: Dlmalloc, s: int, p: int, loose: Set<int>)
    requires
        o.wf_but(loose),
        state::in_bin(o.model@.small, o.model@.large, s, p),
        d.bins_wf(),
        d.same_but_bins(&o),
        d@ == o@.take(s, p),
    ensures
        d.wf_but(loose.insert(p)),
        !loose.contains(p),
        p != o.dv,
        o.model@.chunks.contains_key(p),
        o.model@.chunks[p] == (Block { size: s, tag: Tag::Free }),
{
    o.lemma_listed(s, p);
    freelists::lemma_binned_take(o@, o@.chunks, o@.dv, loose, p);
}

impl Dlmalloc {
    /// Nothing but head and foot words, chunks and the special chunks differs.
    pub(crate) open spec fn same_bins(&self, o: &Dlmalloc) -> bool {
        &&& self.smallmap == o.smallmap
        &&& self.treemap == o.treemap
        &&& self.treebins == o.treebins
        &&& self.mem.prevs == o.mem.prevs
        &&& self.mem.nexts == o.mem.nexts
        &&& self.mem.lefts == o.mem.lefts
        &&& self.mem.rights == o.mem.rights
        &&& self.mem.parents == o.mem.parents
        &&& self.mem.indices == o.mem.indices
        &&& self.model@.small == o.model@.small
        &&& self.model@.large == o.model@.large
        &&& self.model@.trie == o.model@.trie
        &&& self.model@.level == o.model@.level
    }

    /// Head words of chunks in no free list do not matter to the free lists.
    pub(crate) proof fn lemma_bins_kept(&self, o: &Dlmalloc)
        requires
            o.bins_wf(),
            self.same_bins(o),
            forall|t: int, q: int| #[trigger]
                state::in_bin(o.model@.small, o.model@.large, t, q) ==> self.mem.heads@[q]
                    == o.mem.heads@[q],
        ensures
            self.bins_wf(),
    {
        let m = o.model@;
        assert forall|s: int| #[trigger] m.small.contains_key(s) implies state::list_ok(
            m.small[s],
            s,
            self.mem.heads@,
        ) by {
            let l = m.small[s];
            assert forall|j: int| 0 <= j < l.len() implies self.mem.heads@[#[trigger] l[j]] == s
                + 1 by {
                assert(l.contains(l[j]));
                assert(state::in_bin(m.small, m.large, s, l[j]));
            }
        }
        assert forall|s: int| #[trigger] m.large.contains_key(s) implies state::list_ok(
            m.large[s],
            s,
            self.mem.heads@,
        ) by {
            let l = m.large[s];
            assert forall|j: int| 0 <= j < l.len() implies self.mem.heads@[#[trigger] l[j]] == s
                + 1 by {
                assert(l.contains(l[j]));
                assert(state::in_bin(m.small, m.large, s, l[j]));
            }
        }
        crate::bins::lemma_trees_frame(m, o.mem, self.mem, self.treebins@, self.treemap);
    }

    /// Chunk `p`, free and in no list, is handed out: its first `nb` bytes, or all if the
    /// rest could not be a chunk. The rest is then in no list.
    pub(crate) fn carve(&mut self, p: usize, size: usize, nb: usize, Ghost(loose): Ghost<Set<int>>)
        requires
            old(self).wf_but(loose),
            loose.contains(p as int) || p == old(self).dv,
            old(self).model@.chunks.contains_key(p as int),
            old(self).model@.chunks[p as int] == (Block { size: size as int, tag: Tag::Free }),
            4 * arith::word() <= nb <= size,
            arith::aligned(nb as int),
        ensures
            final(self).bins_wf(),
            state::chunks_ok(
                final(self).model@.chunks,
                final(self).mem.heads@,
                final(self).mem.feet@,
            ),
            final(self).segs_wf(),
            final(self)@ == old(self)@.cut(p as int, nb as int),
            state::binned(
                final(self)@.small,
                final(self)@.large,
                final(self)@.chunks,
                if p == old(self).dv { 0 } else { old(self)@.dv },
                if size - nb >= 4 * arith::word() {
                    loose.remove(p as int).insert(p + nb)
                } else {
                    loose.remove(p as int)
                },
            ),
            size - nb >= 4 * arith::word() ==> !old(self)@.chunks.contains_key(p + nb),
            forall|q: int| #[trigger]
                final(self)@.chunks.contains_key(q) && final(self)@.chunks[q].tag is Top ==> q
                    == old(self).top,
            !final(self)@.chunks.contains_key(0),
            p != old(self).dv ==> final(self).phys_wf(),
            final(self).keeps(old(self)),
    {
        let ghost o = *self;
        let ghost c = self.model@.chunks;
        let ghost h = self@;
        proof {
            assert(state::chunk_ok(c, self.mem.heads@, self.mem.feet@, p as int));
            let n = p + size;
            assert(state::chunk_ok(c, self.mem.heads@, self.mem.feet@, n));
            sizes::lemma_round_aligned(nb as int);
        }
        let rsize: usize = size - nb;
        if rsize < self.min_chunk_size() {
            Chunk::set_inuse_and_pinuse(&mut self.mem, p, size);
            proof {
                let c2 = h.cut(p as int, nb as int).chunks;
                self.model@ = Model { chunks: c2, ..self.model@ };
                phys::lemma_use_whole(c, o.mem.heads@, self.mem.heads@, o.mem.feet@, p as int);
                segments::lemma_segs_use_whole(c, o.model@.segs, o.top as int, p as int);
            }
        } else {
            Chunk::set_size_and_pinuse_of_inuse_chunk(&mut self.mem, p, nb);
            let r: usize = Chunk::plus_offset(p, nb);
            Chunk::set_size_and_pinuse_of_free_chunk(&mut self.mem, r, rsize);
            proof {
                let c2 = h.cut(p as int, nb as int).chunks;
                self.model@ = Model { chunks: c2, ..self.model@ };
                phys::lemma_use_part(
                    c,
                    o.mem.heads@,
                    self.mem.heads@,
                    o.mem.feet@,
                    self.mem.feet@,
                    p as int,
                    nb as int,
                );
                lemma_top_there(o, p as int);
                segments::lemma_segs_split(
                    c,
                    o.model@.segs,
                    o.top as int,
                    p as int,
                    nb as int,
                    Tag::Free,
                );
            }
        }
        proof {
            segments::lemma_marks(
                c,
                o.model@.segs,
                o.top as int,
                o.mem.heads@,
                self.mem.heads@,
                p as int,
            );
            assert forall|t: int, q: int| #[trigger]
                state::in_bin(o.model@.small, o.model@.large, t, q) implies self.mem.heads@[q]
                == o.mem.heads@[q] by {
                assert(c.contains_key(q));
                assert(q != p);
            }
            self.lemma_bins_kept(&o);
            let c2 = self.model@.chunks;
            assert(!c2.contains_key(0)) by {
                if c2.contains_key(0) {
                    assert(state::chunk_ok(c2, self.mem.heads@, self.mem.feet@, 0));
                }
            }
            lemma_binned_cut(h, loose, p as int, nb as int);
            let n = p + size;
            words::lemma_rewritten(o, *self, p as int, n, p as int, n, 0);
        }
    }

    /// The first `nb` bytes of the top chunk are handed out.
    pub(crate) fn carve_top(&mut self, nb: usize) -> (p: usize)
        requires
            old(self).wf(),
            4 * arith::word() <= nb < old(self).topsize,
            arith::aligned(nb as int),
        ensures
            final(self).wf(),
            p == old(self).top,
            final(self)@ == old(self)@.cut_top(nb as int),
            final(self).keeps(old(self)),
    {
        let ghost o = *self;
        let ghost c = self.model@.chunks;
        let ghost h = self@;
        proof {
            assert(state::chunk_ok(c, self.mem.heads@, self.mem.feet@, h.top));
            lemma_or_one((self.topsize - nb) as usize);
            sizes::lemma_round_aligned(nb as int);
        }
        self.topsize = self.topsize - nb;
        let rsize: usize = self.topsize;
        let p: usize = self.top;
        self.top = Chunk::plus_offset(p, nb);
        let r: usize = self.top;
        self.mem.heads.set(r, rsize | PINUSE);
        Chunk::set_size_and_pinuse_of_inuse_chunk(&mut self.mem, p, nb);
        proof {
            let c2 = h.cut_top(nb as int).chunks;
            self.model@ = Model { chunks: c2, ..self.model@ };
            phys::lemma_use_top(
                c,
                o.mem.heads@,
                self.mem.heads@,
                o.mem.feet@,
                p as int,
                nb as int,
            );
            segments::lemma_segs_split(c, o.model@.segs, p as int, p as int, nb as int, Tag::Top);
            segments::lemma_marks(
                c,
                o.model@.segs,
                o.top as int,
                o.mem.heads@,
                self.mem.heads@,
                p as int,
            );
            assert forall|t: int, q: int| #[trigger]
                state::in_bin(o.model@.small, o.model@.large, t, q) implies self.mem.heads@[q]
                == o.mem.heads@[q] by {
                assert(c.contains_key(q));
                assert(q != p);
            }
            self.lemma_bins_kept(&o);
            lemma_binned_top(h, nb as int);
            let n = p + o.topsize;
            words::lemma_rewritten(o, *self, p as int, n, p as int, n, 0);
        }
        p
    }
}

/// The free lists stay right when the top chunk is cut.
proof fn lemma_binned_top(h: Heap, nb: int)
    requires
        state::binned(h.small, h.large, h.chunks, h.dv, Set::empty()),
        h.chunks.contains_key(h.top),
        h.chunks[h.top].tag is Top,
        !h.chunks.contains_key(h.top + nb),
    ensures
        state::binned(h.small, h.large, h.cut_top(nb).chunks, h.dv, Set::empty()),
{
    let c = h.chunks;
    let c2 = h.cut_top(nb).chunks;
    assert forall|t: int, q: int| #[trigger] state::in_bin(h.small, h.large, t, q) implies {
        &&& c2.contains_key(q)
        &&& c2[q] == (Block { size: t, tag: Tag::Free })
        &&& q != h.dv
    } by {
        assert(c.contains_key(q));
    }
    assert forall|q: int| #[trigger]
        c2.contains_key(q) && c2[q].tag is Free && q != h.dv implies state::in_bin(
        h.small,
        h.large,
        c2[q].size,
        q,
    ) by {
        assert(c.contains_key(q));
    }
}

/// An even number gets its low bit.
pub(crate) proof fn lemma_or_one(x: usize)
    ensures
        x % 2 == 0 ==> x | PINUSE == x + 1,
{
    assert(x % 2 == 0 ==> x | 1 == x + 1) by (bit_vector);
}

/// The free lists stay right when a chunk in none of them is cut.
proof fn lemma_binned_cut(h: Heap, loose: Set<int>, p: int, nb: int)
    requires
        state::binned(h.small, h.large, h.chunks, h.dv, loose),
        h.chunks.contains_key(p),
        h.chunks[p].tag is Free,
        loose.contains(p) || p == h.dv,
        nb > 0,
        !h.cut(p, nb).chunks.contains_key(0),
        h.chunks[p].size - nb >= 4 * arith::word() ==> !h.chunks.contains_key(p + nb),
    ensures
        state::binned(
            h.small,
            h.large,
            h.cut(p, nb).chunks,
            if p == h.dv { 0 } else { h.dv },
            if h.chunks[p].size - nb >= 4 * arith::word() {
                loose.remove(p).insert(p + nb)
            } else {
                loose.remove(p)
            },
        ),
{
    let c = h.chunks;
    let c2 = h.cut(p, nb).chunks;
    let l2 = if c[p].size - nb >= 4 * arith::word() {
        loose.remove(p).insert(p + nb)
    } else {
        loose.remove(p)
    };
    let dv2 = if p == h.dv { 0 } else { h.dv };
    assert forall|t: int, q: int| #[trigger] state::in_bin(h.small, h.large, t, q) implies {
        &&& c2.contains_key(q)
        &&& c2[q] == (Block { size: t, tag: Tag::Free })
        &&& q != dv2
        &&& !l2.contains(q)
    } by {
        assert(c.contains_key(q) && q != p);
    }
    assert forall|q: int| #[trigger]
        c2.contains_key(q) && c2[q].tag is Free && q != dv2 && !l2.contains(
            q,
        ) implies state::in_bin(h.small, h.large, c2[q].size, q) by {
        assert(c.contains_key(q));
    }
}

/// Where there is a chunk, there is a top chunk.
pub(crate) proof fn lemma_top_there(d: Dlmalloc, p: int)
    requires
        d.phys_wf(),
        d.segs_wf(),
        d.model@.chunks.contains_key(p),
    ensures
        d.top != 0,
        d.model@.segs.len() > 0,
        d.model@.chunks.contains_key(d.top as int),
        d.model@.chunks[d.top as int].tag is Top,
{
    assert(state::housed(d.model@.chunks, d.model@.segs, p));
}

} // verus!
