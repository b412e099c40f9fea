//! The free lists of all sizes together.
use vstd::prelude::*;
use crate::arith;
use crate::state;
use crate::state::{Block, Dlmalloc, Heap, Tag, FIRST_ADDR};
use crate::words;

verus! {

/// What the free lists hold once a chunk is put into one.
pub proof fn lemma_put(h: Heap, s: int, p: int)
    ensures
        forall|t: int, q: int| #[trigger]
            state::in_bin(h.put(s, p).small, h.put(s, p).large, t, q) <==> state::in_bin(
                h.small,
                h.large,
                t,
                q,
            ) || (t == s && q == p),
{
    let g = h.put(s, p);
    assert forall|t: int, q: int| #[trigger]
        state::in_bin(g.small, g.large, t, q) <==> state::in_bin(h.small, h.large, t, q) || (t == s
            && q == p) by {
        let l = if s < 256 { h.small } else { h.large };
        if l.contains_key(s) {
            lemma_push_contains(l[s], p, q);
        } else {
            assert(seq![p].contains(q) <==> q == p) by {
                if q == p {
                    assert(seq![p][0] == q);
                }
            }
        }
    }
}

proof fn lemma_push_contains(l: Seq<int>, p: int, q: int)
    ensures
        l.push(p).contains(q) <==> l.contains(q) || q == p,
{
    let m = l.push(p);
    if l.contains(q) {
        let i = choose|i: int| 0 <= i < l.len() && l[i] == q;
        assert(m[i] == q);
    }
    if q == p {
        assert(m[l.len() as int] == q);
    }
    if m.contains(q) {
        let i = choose|i: int| 0 <= i < m.len() && m[i] == q;
        if i < l.len() {
            assert(l[i] == q);
        }
    }
}

/// What the free lists hold once a chunk is taken out of one.
pub proof fn lemma_take(h: Heap, s: int, p: int)
    requires
        state::in_bin(h.small, h.large, s, p),
        s < 256 ==> h.small[s].no_duplicates(),
        s >= 256 ==> h.large[s].no_duplicates(),
    ensures
        forall|t: int, q: int| #[trigger]
            state::in_bin(h.take(s, p).small, h.take(s, p).large, t, q) <==> state::in_bin(
                h.small,
                h.large,
                t,
                q,
            ) && !(t == s && q == p),
{
    let g = h.take(s, p);
    assert forall|t: int, q: int| #[trigger]
        state::in_bin(g.small, g.large, t, q) <==> state::in_bin(h.small, h.large, t, q) && !(t == s
            && q == p) by {
        let l = if s < 256 { h.small[s] } else { h.large[s] };
        let j = l.index_of(p);
        assert(l[j] == p && 0 <= j < l.len());
        let m = l.remove(j);
        if l.len() == 1 {
            if l.contains(q) {
                let i = choose|i: int| 0 <= i < l.len() && l[i] == q;
                assert(i == 0);
            }
        } else {
            if l.contains(q) && q != p {
                let i = choose|i: int| 0 <= i < l.len() && l[i] == q;
                assert(m[if i < j { i } else { i - 1 }] == q);
            }
            if m.contains(q) {
                let i = choose|i: int| 0 <= i < m.len() && m[i] == q;
                let e = if i < j { i } else { i + 1 };
                assert(l[e] == q);
            }
        }
    }
}

/// A loose chunk is put into the free list for its size.
pub proof fn lemma_binned_put(
    h: Heap,
    c: Map<int, Block>,
    dv: int,
    loose: Set<int>,
    p: int,
)
    requires
        state::binned(h.small, h.large, c, dv, loose),
        loose.contains(p),
        c.contains_key(p),
        c[p].tag is Free,
        p != dv,
    ensures
        state::binned(
            h.put(c[p].size, p).small,
            h.put(c[p].size, p).large,
            c,
            dv,
            loose.remove(p),
        ),
{
    let g = h.put(c[p].size, p);
    lemma_put(h, c[p].size, p);
    assert forall|s: int, q: int| #[trigger] state::in_bin(g.small, g.large, s, q) implies {
        &&& c.contains_key(q)
        &&& c[q] == (Block { size: s, tag: Tag::Free })
        &&& q != dv
        &&& !loose.remove(p).contains(q)
    } by {
        if !(s == c[p].size && q == p) {
            assert(state::in_bin(h.small, h.large, s, q));
        }
    }
    assert forall|q: int| #[trigger]
        c.contains_key(q) && c[q].tag is Free && q != dv && !loose.remove(p).contains(
            q,
        ) implies state::in_bin(g.small, g.large, c[q].size, q) by {
        if q != p {
            assert(state::in_bin(h.small, h.large, c[q].size, q));
        }
    }
}

/// A chunk is taken out of the free list for its size.
pub proof fn lemma_binned_take(
    h: Heap,
    c: Map<int, Block>,
    dv: int,
    loose: Set<int>,
    p: int,
)
    requires
        state::binned(h.small, h.large, c, dv, loose),
        c.contains_key(p),
        state::in_bin(h.small, h.large, c[p].size, p),
        c[p].size < 256 ==> h.small[c[p].size].no_duplicates(),
        c[p].size >= 256 ==> h.large[c[p].size].no_duplicates(),
    ensures
        state::binned(
            h.take(c[p].size, p).small,
            h.take(c[p].size, p).large,
            c,
            dv,
            loose.insert(p),
        ),
{
    let g = h.take(c[p].size, p);
    lemma_take(h, c[p].size, p);
    assert forall|s: int, q: int| #[trigger] state::in_bin(g.small, g.large, s, q) implies {
        &&& c.contains_key(q)
        &&& c[q] == (Block { size: s, tag: Tag::Free })
        &&& q != dv
        &&& !loose.insert(p).contains(q)
    } by {
        assert(state::in_bin(h.small, h.large, s, q));
    }
    assert forall|q: int| #[trigger]
        c.contains_key(q) && c[q].tag is Free && q != dv && !loose.insert(p).contains(
            q,
        ) implies state::in_bin(g.small, g.large, c[q].size, q) by {
        assert(state::in_bin(h.small, h.large, c[q].size, q));
    }
}

/// The designated victim, given up, is a loose chunk.
pub proof fn lemma_undesignated(h: Heap, loose: Set<int>)
    requires
        state::binned(h.small, h.large, h.chunks, h.dv, loose),
        !h.chunks.contains_key(0),
    ensures
        state::binned(h.small, h.large, h.chunks, 0, loose.insert(h.dv)),
{
    assert forall|q: int| #[trigger]
        h.chunks.contains_key(q) && h.chunks[q].tag is Free && q != 0 && !loose.insert(
            h.dv,
        ).contains(q) implies state::in_bin(h.small, h.large, h.chunks[q].size, q) by {
    }
    assert forall|s: int, q: int| #[trigger] state::in_bin(h.small, h.large, s, q) implies {
        &&& h.chunks.contains_key(q)
        &&& h.chunks[q] == (Block { size: s, tag: Tag::Free })
        &&& q != 0
        &&& !loose.insert(h.dv).contains(q)
    } by {
    }
}

/// A loose chunk becomes the designated victim.
pub proof fn lemma_designated(h: Heap, c: Map<int, Block>, loose: Set<int>, p: int)
    requires
        state::binned(h.small, h.large, c, 0, loose),
        loose.contains(p),
        !c.contains_key(0),
    ensures
        state::binned(h.small, h.large, c, p, loose.remove(p)),
{
    assert forall|q: int| #[trigger]
        c.contains_key(q) && c[q].tag is Free && q != p && !loose.remove(p).contains(
            q,
        ) implies state::in_bin(h.small, h.large, c[q].size, q) by {
    }
    assert forall|s: int, q: int| #[trigger] state::in_bin(h.small, h.large, s, q) implies {
        &&& c.contains_key(q)
        &&& c[q] == (Block { size: s, tag: Tag::Free })
        &&& q != p
        &&& !loose.remove(p).contains(q)
    } by {
    }
}

impl Dlmalloc {
    /// What holds of a chunk in a free list.
    pub(crate) proof fn lemma_listed(&self, s: int, p: int)
        requires
            self.bins_wf(),
            state::in_bin(self.model@.small, self.model@.large, s, p),
        ensures
            s < 256 ==> self.model@.small[s].no_duplicates(),
            s >= 256 ==> self.model@.large[s].no_duplicates(),
            self.mem.heads@[p] == s + 1,
            FIRST_ADDR <= p <= usize::MAX,
            4 * arith::word() <= s < usize::MAX,
            arith::aligned(s),
    {
        let l = if s < 256 { self.model@.small[s] } else { self.model@.large[s] };
        let j = l.index_of(p);
        assert(0 <= j < l.len() && l[j] == p);
    }

    /// Puts a free chunk into the free list for its size.
    pub(crate) fn insert_chunk(&mut self, chunk: usize, size: usize, Ghost(loose): Ghost<Set<int>>)
        requires
            old(self).wf_but(loose),
            loose.contains(chunk as int),
            old(self).model@.chunks.contains_key(chunk as int),
            old(self).model@.chunks[chunk as int] == (Block { size: size as int, tag: Tag::Free }),
            chunk != old(self).dv,
        ensures
            final(self).wf_but(loose.remove(chunk as int)),
            final(self).same_but_bins(old(self)),
            final(self)@ == old(self)@.put(size as int, chunk as int),
            final(self).keeps(old(self)),
    {
        proof {
            self.lemma_fresh(loose, chunk as int);
            lemma_binned_put(self@, self@.chunks, self@.dv, loose, chunk as int);
        }
        if self.is_small(size) {
            self.insert_small_chunk(chunk, size);
        } else {
            self.insert_large_chunk(chunk, size);
        }
        assert(self@ == old(self)@.put(size as int, chunk as int));
        proof {
            words::lemma_relinked(*old(self), *self, chunk as int);
        }
    }

    /// A free chunk that is in no free list.
    pub(crate) proof fn lemma_fresh_at(&self, loose: Set<int>, p: int)
        requires
            self.phys_wf(),
            state::binned(self.model@.small, self.model@.large, self.model@.chunks, 0, loose),
            loose.contains(p),
            self.model@.chunks.contains_key(p),
            self.model@.chunks[p].tag is Free,
        ensures
            ({
                let s = self.model@.chunks[p].size;
                &&& FIRST_ADDR <= p <= usize::MAX
                &&& 4 * arith::word() <= s < usize::MAX
                &&& arith::aligned(s)
                &&& self.mem.heads@[p] == s + 1
                &&& s < 256 && self.model@.small.contains_key(s)
                    ==> !self.model@.small[s].contains(p)
                &&& s >= 256 && self.model@.large.contains_key(s)
                    ==> !self.model@.large[s].contains(p)
            }),
    {
        assert(state::chunk_ok(self.model@.chunks, self.mem.heads@, self.mem.feet@, p));
        let s = self.model@.chunks[p].size;
        assert(!state::in_bin(self.model@.small, self.model@.large, s, p));
    }

    /// A loose chunk is in no free list, and its header says that it is free.
    pub(crate) proof fn lemma_fresh(&self, loose: Set<int>, p: int)
        requires
            self.phys_wf(),
            self.binned(loose),
            loose.contains(p),
            self.model@.chunks.contains_key(p),
            self.model@.chunks[p].tag is Free,
        ensures
            ({
                let s = self.model@.chunks[p].size;
                &&& FIRST_ADDR <= p <= usize::MAX
                &&& 4 * arith::word() <= s < usize::MAX
                &&& arith::aligned(s)
                &&& self.mem.heads@[p] == s + 1
                &&& s < 256 && self.model@.small.contains_key(s)
                    ==> !self.model@.small[s].contains(p)
                &&& s >= 256 && self.model@.large.contains_key(s)
                    ==> !self.model@.large[s].contains(p)
            }),
    {
        assert(state::chunk_ok(self.model@.chunks, self.mem.heads@, self.mem.feet@, p));
        let s = self.model@.chunks[p].size;
        assert(!state::in_bin(self.model@.small, self.model@.large, s, p));
    }

    /// Takes a free chunk out of the free list for its size.
    pub(crate) fn unlink_chunk(&mut self, chunk: usize, size: usize, Ghost(loose): Ghost<Set<int>>)
        requires
            old(self).wf_but(loose),
            !loose.contains(chunk as int),
            old(self).model@.chunks.contains_key(chunk as int),
            old(self).model@.chunks[chunk as int] == (Block { size: size as int, tag: Tag::Free }),
            chunk != old(self).dv,
        ensures
            final(self).wf_but(loose.insert(chunk as int)),
            final(self).same_but_bins(old(self)),
            final(self)@ == old(self)@.take(size as int, chunk as int),
            state::in_bin(old(self)@.small, old(self)@.large, size as int, chunk as int),
            final(self).keeps(old(self)),
    {
        proof {
            assert(state::in_bin(self.model@.small, self.model@.large, size as int, chunk as int));
            self.lemma_listed(size as int, chunk as int);
            lemma_binned_take(self@, self@.chunks, self@.dv, loose, chunk as int);
        }
        if self.is_small(size) {
            self.unlink_small_chunk(chunk, size)
        } else {
            self.unlink_large_chunk(chunk);
        }
        assert(self@ == old(self)@.take(size as int, chunk as int));
        proof {
            words::lemma_relinked(*old(self), *self, chunk as int);
        }
    }

    /// Makes the loose free chunk `chunk` the designated victim. The one before it goes to the
    /// free list for its size.
    pub(crate) fn replace_dv(&mut self, chunk: usize, size: usize, Ghost(loose): Ghost<Set<int>>)
        requires
            old(self).wf_but(loose),
            loose.contains(chunk as int),
            old(self).model@.chunks.contains_key(chunk as int),
            old(self).model@.chunks[chunk as int] == (Block { size: size as int, tag: Tag::Free }),
            chunk != old(self).dv,
            !loose.contains(old(self).dv as int),
            old(self).dvsize < 256,
        ensures
            final(self).wf_but(loose.remove(chunk as int)),
            final(self)@ == old(self)@.designate(chunk as int, size as int),
            final(self).mem.heads == old(self).mem.heads,
            final(self).mem.feet == old(self).mem.feet,
            final(self).keeps(old(self)),
    {
        let dvs: usize = self.dvsize;
        let ghost h = self@;
        let ghost l2 = loose.insert(h.dv);
        proof {
            self.lemma_fresh(loose, chunk as int);
            assert(!h.chunks.contains_key(0)) by {
                if h.chunks.contains_key(0) {
                    assert(state::chunk_ok(h.chunks, self.mem.heads@, self.mem.feet@, 0));
                }
            }
            if dvs != 0 {
                lemma_undesignated(h, loose);
                self.lemma_fresh_at(l2, h.dv);
                lemma_binned_put(h, h.chunks, 0, l2, h.dv);
                assert(l2.remove(h.dv) =~= loose);
            }
        }
        proof {
            words::lemma_idle(*self, 0);
        }
        if dvs != 0 {
            let dv: usize = self.dv;
            self.insert_small_chunk(dv, dvs);
            proof {
                words::lemma_relinked(*old(self), *self, dv as int);
            }
        }
        proof {
            lemma_designated(
                if dvs != 0 { h.put(h.dvsize, h.dv) } else { h },
                h.chunks,
                loose,
                chunk as int,
            );
        }
        self.dvsize = size;
        self.dv = chunk;
    }
}

} // verus!
