//! Taking memory back.
use vstd::prelude::*;
use crate::arith;
use crate::carve;
use crate::chunk::{Chunk, PINUSE};
use crate::join;
use crate::phys;
use crate::segments;
use crate::sizes;
use crate::state;
use crate::state::{Block, Dlmalloc, Heap, Model, Tag};
use crate::words;

verus! {

/// What memory the system may get back.
#[derive(Clone, Copy, Debug, PartialEq, Eq, Structural)]
pub enum Due {
    /// None is looked for.
    Nothing,
    /// The top chunk has grown so large that its end can be given back.
    Trim,
    /// Segments without a chunk in use can be given back.
    Release,
}

impl Heap {
    /// The free chunk `a` of size `t` goes to the free list for its size, unless it is the
    /// designated victim.
    pub open spec fn settle(self, a: int, t: int) -> (Heap, Due) {
        if a == self.dv {
            (self, Due::Nothing)
        } else if t < 256 {
            (self.put(t, a), Due::Nothing)
        } else {
            (
                Heap { release_checks: self.release_checks - 1, ..self.put(t, a) },
                if self.release_checks == 1 {
                    Due::Release
                } else {
                    Due::Nothing
                },
            )
        }
    }

    /// The size of the chunk that the `size` bytes from `a` on become part of when they are
    /// freed.
    pub open spec fn run_size(self, a: int, size: int) -> int {
        let n = a + size;
        if n == self.top || self.chunks[n].tag is Free {
            size + self.chunks[n].size
        } else {
            size
        }
    }

    /// The `size` bytes from chunk `a` on, in no free list, become free, together with what
    /// is free behind them. The chunk that they become is put into no free list.
    pub open spec fn absorb(self, a: int, size: int) -> Heap {
        let c = self.chunks;
        let n = a + size;
        let t = self.run_size(a, size);
        if n == self.top {
            let h = Heap { chunks: join::join(c, a, t, Tag::Top), top: a, topsize: t, ..self };
            if a == self.dv {
                Heap { dv: 0, dvsize: 0, ..h }
            } else {
                h
            }
        } else if n == self.dv {
            Heap { chunks: join::join(c, a, t, Tag::Free), dv: a, dvsize: t, ..self }
        } else {
            let h = if c[n].tag is Free {
                self.take(c[n].size, n)
            } else {
                self
            };
            let g = Heap { chunks: join::join(c, a, t, Tag::Free), ..h };
            if a == self.dv {
                Heap { dvsize: t, ..g }
            } else {
                g
            }
        }
    }

    /// The `size` bytes from chunk `a` on, in no free list, become free, and so become part of
    /// the top chunk, of the designated victim or of a chunk in the free list for its size.
    pub open spec fn free_run(self, a: int, size: int) -> (Heap, Due) {
        let n = a + size;
        let t = self.run_size(a, size);
        let h = self.absorb(a, size);
        if n == self.top {
            (
                h,
                if t > self.trim_check {
                    Due::Trim
                } else {
                    Due::Nothing
                },
            )
        } else if n == self.dv {
            (h, Due::Nothing)
        } else {
            h.settle(a, t)
        }
    }

    /// What taking back the memory at `mem` does, and what it makes due: the chunk is joined
    /// with the free chunks on both sides.
    pub open spec fn free(self, mem: int) -> (Heap, Due) {
        let c = self.chunks;
        let p = mem - 2 * arith::word();
        if join::has_prior(c, p) {
            let q = join::prior(c, p);
            let h = if q != self.dv {
                self.take(c[q].size, q)
            } else {
                self
            };
            h.free_run(q, c[q].size + c[p].size)
        } else {
            self.free_run(p, c[p].size)
        }
    }
}

/// A run of at most two chunks that is about to become free.
pub(crate) open spec fn run_ok(d: Dlmalloc, loose: Set<int>, a: int, size: int, p: int) -> bool {
    let c = d.model@.chunks;
    &&& d.wf_but(loose)
    &&& c.contains_key(p)
    &&& c[p].tag is Used
    &&& a + size == p + c[p].size
    &&& phys::no_prior(c, a)
    &&& if a == p {
        loose == Set::<int>::empty()
    } else {
        &&& join::is_prior(c, a, p)
        &&& loose == if a == d.dv {
            Set::<int>::empty()
        } else {
            Set::empty().insert(a)
        }
    }
}

/// What is in no free list once the run at `a` is free.
pub(crate) open spec fn loose_after(d: Dlmalloc, a: int) -> Set<int> {
    if a == d.dv {
        Set::empty()
    } else {
        Set::empty().insert(a)
    }
}

/// The top chunk and a run in front of a chunk together are no larger than memory.
proof fn lemma_top_room(d: Dlmalloc, loose: Set<int>, a: int, size: int, p: int)
    requires
        run_ok(d, loose, a, size, p),
    ensures
        d.topsize + size <= usize::MAX,
{
    let _ = lemma_run(d, loose, a, size, p);
    let c = d.model@.chunks;
    let t = d.top as int;
    carve::lemma_top_there(d, a);
    assert(state::chunk_ok(c, d.mem.heads@, d.mem.feet@, t));
    if t < a {
        assert(t + c[t].size <= a);
    } else if t < p {
        assert(a + c[a].size <= t);
        assert(t + c[t].size <= p);
    } else {
        assert(p + c[p].size <= t);
    }
}

/// Where a run lies, and what is behind it.
proof fn lemma_run(d: Dlmalloc, loose: Set<int>, a: int, size: int, p: int) -> (i: int)
    requires
        run_ok(d, loose, a, size, p),
    ensures
        ({
            let c = d.model@.chunks;
            let segs = d.model@.segs;
            let n = a + size;
            &&& c.contains_key(a)
            &&& c.contains_key(n)
            &&& state::chunk_ok(c, d.mem.heads@, d.mem.feet@, a)
            &&& state::chunk_ok(c, d.mem.heads@, d.mem.feet@, n)
            &&& state::chunk_ok(c, d.mem.heads@, d.mem.feet@, p)
            &&& state::within(c, segs, i, a)
            &&& state::within(c, segs, i, n)
            &&& a + size <= state::limit(segs, i)
            &&& arith::aligned(size)
            &&& c[a].size <= size
            &&& 4 * arith::word() <= c[a].size
            &&& n + c[n].size <= usize::MAX
            &&& state::inuse(c[n]) ==> d.mem.heads@[n] == c[n].size + 3
            &&& d.top != 0
            &&& n == d.top ==> i == 0
            &&& n != d.top ==> !(c[n].tag is Top)
            &&& forall|q: int| #[trigger]
                c.contains_key(q) && a <= q < a + size ==> q == a || q == p
        }),
{
    let c = d.model@.chunks;
    let segs = d.model@.segs;
    let n = a + size;
    assert(state::chunk_ok(c, d.mem.heads@, d.mem.feet@, p));
    assert(state::chunk_ok(c, d.mem.heads@, d.mem.feet@, a));
    assert(state::chunk_ok(c, d.mem.heads@, d.mem.feet@, n));
    carve::lemma_top_there(d, a);
    sizes::lemma_aligned_sub(c[a].size, c[p].size);
    assert(state::housed(c, segs, a));
    let i = choose|i: int| #[trigger] state::within(c, segs, i, a);
    segments::lemma_same_seg(c, segs, d.top as int, i, a, p);
    segments::lemma_same_seg(c, segs, d.top as int, i, p, n);
    if state::inuse(c[n]) && d.mem.heads@[n] == c[n].size + 2 {
        assert(state::prior_free(c, d.mem.feet@, n));
        let f = n - d.mem.feet@[n];
        assert(state::chunk_ok(c, d.mem.heads@, d.mem.feet@, f));
    }
    if n == d.top {
        assert(state::seg_ok(c, segs, d.top as int, 0));
        if i != 0 {
            assert(state::seg_ok(c, segs, d.top as int, i));
            assert(state::segs_apart(segs[0], segs[i]));
        }
    }
    assert forall|q: int| #[trigger] c.contains_key(q) && a <= q < a + size implies q == a || q
        == p by {
        if q != a && q != p {
            assert(a + c[a].size <= q);
            assert(q < p ==> q + c[q].size <= p);
            assert(state::chunk_ok(c, d.mem.heads@, d.mem.feet@, q));
        }
    }
    i
}

impl Dlmalloc {
    /// Puts the free chunk `a` of size `t`, in no free list, into the one for its size.
    fn settle(&mut self, a: usize, t: usize) -> (r: Due)
        requires
            old(self).wf_but(Set::empty().insert(a as int)),
            a != old(self).dv,
            old(self).model@.chunks.contains_key(a as int),
            old(self).model@.chunks[a as int] == (Block { size: t as int, tag: Tag::Free }),
            old(self).release_checks > 0,
        ensures
            final(self).wf(),
            (final(self)@, r) == old(self)@.settle(a as int, t as int),
            final(self).keeps(old(self)),
    {
        let ghost e = Set::<int>::empty();
        let ghost l = e.insert(a as int);
        assert(l.remove(a as int) =~= e);
        self.insert_chunk(a, t, Ghost(l));
        if !self.is_small(t) {
            self.release_checks = self.release_checks - 1;
            if self.release_checks == 0 {
                return Due::Release;
            }
        }
        Due::Nothing
    }

    /// Gives the run of `psize` bytes from chunk `p` on to the top chunk behind it.
    fn join_top(
        &mut self,
        p: usize,
        psize: usize,
        Ghost(loose): Ghost<Set<int>>,
        Ghost(u): Ghost<int>,
    )
        requires
            run_ok(*old(self), loose, p as int, psize as int, u),
            p + psize == old(self).top,
        ensures
            final(self).wf(),
            final(self)@ == old(self)@.absorb(p as int, psize as int),
            final(self).keeps_but(old(self), u),
    {
        let ghost o = *self;
        proof {
            let _ = lemma_run(o, loose, p as int, psize as int, u);
        }
        proof {
            carve::lemma_or_one((self.topsize + psize) as usize);
        }
        self.topsize = self.topsize + psize;
        let tsize: usize = self.topsize;
        self.top = p;
        self.mem.heads.set(p, tsize | PINUSE);
        if p == self.dv {
            self.dv = 0;
            self.dvsize = 0;
        }
        proof {
            self.model@ = Model {
                chunks: join::join(o.model@.chunks, p as int, tsize as int, Tag::Top),
                ..self.model@
            };
            lemma_free_to_top(o, *self, loose, p as int, psize as int, u);
            lemma_run_spared(o, loose, p as int, psize as int, u);
            let n = p + tsize;
            words::lemma_rewritten(o, *self, p as int, n, p as int, n, u);
        }
    }

    /// Gives the run of `psize` bytes from chunk `p` on to the designated victim behind it.
    fn join_dv(
        &mut self,
        p: usize,
        psize: usize,
        Ghost(loose): Ghost<Set<int>>,
        Ghost(u): Ghost<int>,
    )
        requires
            run_ok(*old(self), loose, p as int, psize as int, u),
            p + psize == old(self).dv,
            p + psize != old(self).top,
        ensures
            final(self).wf(),
            final(self)@ == old(self)@.absorb(p as int, psize as int),
            final(self).keeps_but(old(self), u),
    {
        let ghost o = *self;
        proof {
            let _ = lemma_run(o, loose, p as int, psize as int, u);
        }
        self.dvsize = self.dvsize + psize;
        let dsize: usize = self.dvsize;
        self.dv = p;
        Chunk::set_size_and_pinuse_of_free_chunk(&mut self.mem, p, dsize);
        proof {
            self.model@ = Model {
                chunks: join::join(o.model@.chunks, p as int, dsize as int, Tag::Free),
                ..self.model@
            };
            lemma_free_to_dv(o, *self, loose, p as int, psize as int, u);
            lemma_run_spared(o, loose, p as int, psize as int, u);
            let n = p + dsize;
            words::lemma_rewritten(o, *self, p as int, n, p as int, n, u);
        }
    }

    /// Joins the run of `psize` bytes from chunk `p` on with the free chunk behind it; gives
    /// back the size of the whole.
    #[verifier::rlimit(50)]
    fn join_next(
        &mut self,
        p: usize,
        psize: usize,
        Ghost(loose): Ghost<Set<int>>,
        Ghost(u): Ghost<int>,
    ) -> (r: usize)
        requires
            run_ok(*old(self), loose, p as int, psize as int, u),
            p + psize != old(self).dv,
            p + psize != old(self).top,
            old(self).model@.chunks[p + psize].tag is Free,
        ensures
            final(self).wf_but(loose_after(*old(self), p as int)),
            final(self)@ == old(self)@.absorb(p as int, psize as int),
            final(self).keeps_but(old(self), u),
            r == old(self)@.run_size(p as int, psize as int),
    {
        let ghost o = *self;
        proof {
            let _ = lemma_run(o, loose, p as int, psize as int, u);
        }
        let next: usize = Chunk::plus_offset(p, psize);
        let nsize: usize = Chunk::size(&self.mem, next);
        let psize2: usize = psize + nsize;
        self.unlink_chunk(next, nsize, Ghost(loose));
        let ghost o2 = *self;
        Chunk::set_size_and_pinuse_of_free_chunk(&mut self.mem, p, psize2);
        if p == self.dv {
            self.dvsize = psize2;
        }
        proof {
            self.model@ = Model {
                chunks: join::join(o.model@.chunks, p as int, psize2 as int, Tag::Free),
                ..self.model@
            };
            lemma_free_to_next(o, o2, *self, loose, p as int, psize as int, u);
            lemma_run_spared(o, loose, p as int, psize as int, u);
            let n = p + psize2;
            words::lemma_rewritten(o2, *self, p as int, n, p as int, n, u);
            words::lemma_kept_to(o, o2, *self, u);
        }
        psize2
    }

    /// Makes the run of `psize` bytes from chunk `p` on a free chunk.
    pub(crate) fn join_alone(
        &mut self,
        p: usize,
        psize: usize,
        Ghost(loose): Ghost<Set<int>>,
        Ghost(u): Ghost<int>,
    )
        requires
            run_ok(*old(self), loose, p as int, psize as int, u),
            state::inuse(old(self).model@.chunks[p + psize]),
        ensures
            final(self).wf_but(loose_after(*old(self), p as int)),
            final(self)@ == old(self)@.absorb(p as int, psize as int),
            final(self).keeps_but(old(self), u),
            old(self)@.run_size(p as int, psize as int) == psize,
    {
        let ghost o = *self;
        proof {
            let _ = lemma_run(o, loose, p as int, psize as int, u);
        }
        let next: usize = Chunk::plus_offset(p, psize);
        Chunk::set_free_with_pinuse(&mut self.mem, p, psize, next);
        if p == self.dv {
            self.dvsize = psize;
        }
        proof {
            self.model@ = Model {
                chunks: join::join(o.model@.chunks, p as int, psize as int, Tag::Free),
                ..self.model@
            };
            lemma_free_alone(o, *self, loose, p as int, psize as int, u);
            lemma_run_spared(o, loose, p as int, psize as int, u);
            let n = p + psize;
            words::lemma_rewritten(o, *self, p as int, n, p as int, n, u);
        }
    }

    /// Frees the `psize` bytes from chunk `p` on, which is the chunk in use at `u`, with a free
    /// chunk in front of it if there is one. Gives back the size of the chunk that is now free
    /// and in no free list, or zero if there is none.
    #[verifier::rlimit(50)]
    pub(crate) fn absorb(
        &mut self,
        p: usize,
        psize: usize,
        Ghost(loose): Ghost<Set<int>>,
        Ghost(u): Ghost<int>,
    ) -> (r: usize)
        requires
            run_ok(*old(self), loose, p as int, psize as int, u),
        ensures
            final(self)@ == old(self)@.absorb(p as int, psize as int),
            final(self).keeps_but(old(self), u),
            ({
                let o = old(self)@;
                let n = p + psize;
                if n == o.top || n == o.dv || p == o.dv {
                    r == 0 && final(self).wf()
                } else {
                    let t = o.run_size(p as int, psize as int);
                    &&& r == t
                    &&& r != 0
                    &&& final(self).wf_but(Set::empty().insert(p as int))
                    &&& final(self)@.chunks.contains_key(p as int)
                    &&& final(self)@.chunks[p as int] == (Block { size: t, tag: Tag::Free })
                    &&& final(self)@.dv == o.dv
                }
            }),
            old(self)@.topsize + psize <= usize::MAX,
    {
        proof {
            let _ = lemma_run(*self, loose, p as int, psize as int, u);
        }
        let ghost o = *self;
        proof {
            lemma_top_room(o, loose, p as int, psize as int, u);
        }
        let next: usize = Chunk::plus_offset(p, psize);
        let designated: bool = p == self.dv;
        let t: usize;
        if !Chunk::cinuse(&self.mem, next) {
            if next == self.top {
                self.join_top(p, psize, Ghost(loose), Ghost(u));
                return 0;
            } else if next == self.dv {
                self.join_dv(p, psize, Ghost(loose), Ghost(u));
                return 0;
            } else {
                t = self.join_next(p, psize, Ghost(loose), Ghost(u));
            }
        } else {
            self.join_alone(p, psize, Ghost(loose), Ghost(u));
            t = psize;
        }
        if designated {
            0
        } else {
            t
        }
    }

    /// Frees the `psize` bytes from chunk `p` on, which is the chunk in use at `u`, with a free
    /// chunk in front of it if there is one.
    fn free_run(
        &mut self,
        p: usize,
        psize: usize,
        Ghost(loose): Ghost<Set<int>>,
        Ghost(u): Ghost<int>,
    ) -> (r: Due)
        requires
            run_ok(*old(self), loose, p as int, psize as int, u),
            old(self).release_checks > 0,
        ensures
            final(self).wf(),
            (final(self)@, r) == old(self)@.free_run(p as int, psize as int),
            final(self).keeps_but(old(self), u),
    {
        proof {
            let _ = lemma_run(*self, loose, p as int, psize as int, u);
        }
        let bordered: bool = Chunk::plus_offset(p, psize) == self.top;
        let t: usize = self.absorb(p, psize, Ghost(loose), Ghost(u));
        if bordered {
            if self.should_trim(self.topsize) {
                return Due::Trim;
            }
            return Due::Nothing;
        }
        if t != 0 {
            let ghost d = *self;
            let due: Due = self.settle(p, t);
            proof {
                words::lemma_kept_from(*old(self), d, *self, u);
            }
            return due;
        }
        Due::Nothing
    }

    /// Takes back the memory at `mem`.
    pub fn free(&mut self, mem: usize) -> (r: Due)
        requires
            old(self).wf(),
            old(self)@.chunks.contains_key(mem - 2 * arith::word()),
            old(self)@.chunks[mem - 2 * arith::word()].tag is Used,
            old(self)@.release_checks > 0,
        ensures
            final(self).wf(),
            (final(self)@, r) == old(self)@.free(mem as int),
            final(self).keeps_but(old(self), mem - 2 * arith::word()),
    {
        let ghost c = self.model@.chunks;
        let ghost u = mem - 2 * arith::word();
        let ghost e = Set::<int>::empty();
        proof {
            assert(state::chunk_ok(c, self.mem.heads@, self.mem.feet@, u));
            join::lemma_prior(c, self.mem.heads@, self.mem.feet@, u);
        }
        let p: usize = Chunk::from_mem(mem);
        let psize: usize = Chunk::size(&self.mem, p);
        if !Chunk::pinuse(&self.mem, p) {
            let prevsize: usize = self.mem.feet.get(p);
            proof {
                assert(state::chunk_ok(c, self.mem.heads@, self.mem.feet@, u - prevsize));
                phys::lemma_no_prior(c, self.mem.heads@, self.mem.feet@, u - prevsize);
            }
            let prev: usize = Chunk::minus_offset(p, prevsize);
            if prev != self.dv {
                self.unlink_chunk(prev, prevsize, Ghost(e));
                let ghost d = *self;
                let due: Due = self.free_run(
                    prev,
                    prevsize + psize,
                    Ghost(e.insert(prev as int)),
                    Ghost(u),
                );
                proof {
                    words::lemma_kept_to(*old(self), d, *self, u);
                }
                return due;
            }
            return self.free_run(prev, prevsize + psize, Ghost(e), Ghost(u));
        }
        self.free_run(p, psize, Ghost(e), Ghost(u))
    }
}

/// The chunks of a run and of a free chunk behind it.
proof fn lemma_inside(d: Dlmalloc, loose: Set<int>, a: int, size: int, p: int)
    requires
        run_ok(d, loose, a, size, p),
    ensures
        ({
            let c = d.model@.chunks;
            let n = a + size;
            &&& forall|q: int| #[trigger]
                c.contains_key(q) && a <= q < n + c[n].size ==> q == a || q == p || q == n
            &&& c[n].tag is Free ==> {
                let m = n + c[n].size;
                &&& c.contains_key(m)
                &&& state::inuse(c[m])
                &&& d.mem.heads@[m] == c[m].size + 2
                &&& d.mem.feet@[m] == c[n].size
            }
        }),
{
    let c = d.model@.chunks;
    let n = a + size;
    let _ = lemma_run(d, loose, a, size, p);
    assert forall|q: int| #[trigger] c.contains_key(q) && a <= q < n + c[n].size implies q == a || q
        == p || q == n by {
        if q > n {
            assert(n + c[n].size <= q);
        }
    }
}

/// No client but that of chunk `p` holds memory of the run, or of a chunk behind it that is not in
/// use.
proof fn lemma_run_spared(d: Dlmalloc, loose: Set<int>, a: int, size: int, p: int)
    requires
        run_ok(d, loose, a, size, p),
    ensures
        ({
            let c = d.model@.chunks;
            let n = a + size;
            &&& words::spares(c, a, n, p)
            &&& !state::inuse(c[n]) ==> words::spares(c, a, n + c[n].size, p)
        }),
{
    let c = d.model@.chunks;
    let _ = lemma_run(d, loose, a, size, p);
    lemma_inside(d, loose, a, size, p);
    assert forall|q: int| #[trigger] c.contains_key(q) && c[q].tag is Used && q != p && q
        < a implies q + c[q].size <= a by {
        assert(c.contains_key(a));
    }
}

/// There is no chunk at address zero.
pub(crate) proof fn lemma_no_zero(d: Dlmalloc)
    requires
        d.phys_wf(),
    ensures
        !d.model@.chunks.contains_key(0),
{
    if d.model@.chunks.contains_key(0) {
        assert(state::chunk_ok(d.model@.chunks, d.mem.heads@, d.mem.feet@, 0));
    }
}

/// The top chunk takes up the run in front of it.
proof fn lemma_free_to_top(
    o: Dlmalloc,
    d: Dlmalloc,
    loose: Set<int>,
    a: int,
    size: int,
    p: int,
)
    requires
        run_ok(o, loose, a, size, p),
        a + size == o.top,
        join::only_joined(d, o),
        d.model@.chunks == join::join(o.model@.chunks, a, size + o.topsize, Tag::Top),
        d.mem.heads@ == o.mem.heads@.insert(a, (size + o.topsize + 1) as usize),
        d.mem.feet@ == o.mem.feet@,
        d.top == a,
        d.topsize == size + o.topsize,
        if a == o.dv {
            d.dv == 0 && d.dvsize == 0
        } else {
            d.dv == o.dv && d.dvsize == o.dvsize
        },
    ensures
        d.wf(),
{
    let c = o.model@.chunks;
    let _ = lemma_run(o, loose, a, size, p);
    lemma_no_zero(o);
    carve::lemma_top_there(o, p);
    lemma_inside(o, loose, a, size, p);
    assert(state::seg_ok(c, o.model@.segs, o.top as int, 0));
    sizes::lemma_aligned_sub(size, o.topsize as int);
    join::lemma_joined(o, d, loose, Set::empty(), 0, a, size + o.topsize, Tag::Top);
}

/// The designated victim takes up the run in front of it.
#[verifier::rlimit(40)]
proof fn lemma_free_to_dv(o: Dlmalloc, d: Dlmalloc, loose: Set<int>, a: int, size: int, p: int)
    requires
        run_ok(o, loose, a, size, p),
        a + size == o.dv,
        join::only_joined(d, o),
        d.model@.chunks == join::join(o.model@.chunks, a, size + o.dvsize, Tag::Free),
        d.mem.heads@ == o.mem.heads@.insert(a, (size + o.dvsize + 1) as usize),
        d.mem.feet@ == o.mem.feet@.insert(a + size + o.dvsize, (size + o.dvsize) as usize),
        d.top == o.top,
        d.topsize == o.topsize,
        d.dv == a,
        d.dvsize == size + o.dvsize,
    ensures
        d.wf(),
{
    let c = o.model@.chunks;
    let i = lemma_run(o, loose, a, size, p);
    lemma_inside(o, loose, a, size, p);
    carve::lemma_top_there(o, p);
    assert(state::chunk_ok(c, o.mem.heads@, o.mem.feet@, a + size + o.dvsize));
    sizes::lemma_aligned_sub(size, o.dvsize as int);
    join::lemma_joined(o, d, loose, Set::empty(), i, a, size + o.dvsize, Tag::Free);
}

/// The run takes up the free chunk behind it, which has left its free list.
proof fn lemma_free_to_next(
    o: Dlmalloc,
    o2: Dlmalloc,
    d: Dlmalloc,
    loose: Set<int>,
    a: int,
    size: int,
    p: int,
)
    requires
        run_ok(o, loose, a, size, p),
        o2.same_but_bins(&o),
        o2.wf_but(loose.insert(a + size)),
        o.model@.chunks[a + size].tag is Free,
        a + size != o.dv,
        join::only_joined(d, o2),
        ({
            let t = size + o.model@.chunks[a + size].size;
            &&& d.model@.chunks == join::join(o.model@.chunks, a, t, Tag::Free)
            &&& d.mem.heads@ == o.mem.heads@.insert(a, (t + 1) as usize)
            &&& d.mem.feet@ == o.mem.feet@.insert(a + t, t as usize)
            &&& d.dv == o.dv
            &&& d.dvsize == if a == o.dv { t } else { o.dvsize as int }
        }),
        d.top == o.top,
        d.topsize == o.topsize,
    ensures
        d.wf_but(loose_after(o, a)),
{
    let c = o.model@.chunks;
    let n = a + size;
    let t = size + c[n].size;
    let i = lemma_run(o, loose, a, size, p);
    lemma_inside(o, loose, a, size, p);
    carve::lemma_top_there(o, p);
    assert(state::chunk_ok(c, o.mem.heads@, o.mem.feet@, a + t));
    segments::lemma_same_seg(c, o.model@.segs, o.top as int, i, n, a + t);
    let l2 = loose_after(o, a);
    sizes::lemma_aligned_sub(size, c[n].size);
    join::lemma_joined(o2, d, loose.insert(n), l2, i, a, t, Tag::Free);
}

/// The run becomes a free chunk of its own.
proof fn lemma_free_alone(o: Dlmalloc, d: Dlmalloc, loose: Set<int>, a: int, size: int, p: int)
    requires
        run_ok(o, loose, a, size, p),
        state::inuse(o.model@.chunks[a + size]),
        join::only_joined(d, o),
        d.model@.chunks == join::join(o.model@.chunks, a, size, Tag::Free),
        ({
            let h = o.mem.heads@[a + size];
            d.mem.heads@ == o.mem.heads@.insert(a + size, (h - h % 2) as usize).insert(
                a,
                (size + 1) as usize,
            )
        }),
        d.mem.feet@ == o.mem.feet@.insert(a + size, size as usize),
        d.dv == o.dv,
        d.dvsize == if a == o.dv { size } else { o.dvsize as int },
        d.top == o.top,
        d.topsize == o.topsize,
    ensures
        d.wf_but(loose_after(o, a)),
{
    let i = lemma_run(o, loose, a, size, p);
    carve::lemma_top_there(o, p);
    let l2 = loose_after(o, a);
    join::lemma_joined(o, d, loose, l2, i, a, size, Tag::Free);
}

} // verus!
