//! Serving requests from memory at hand.
use vstd::prelude::*;
use crate::arith;
use crate::carve;
use crate::chunk::Chunk;
use crate::search;
use crate::sizes;
use crate::state;
use crate::state::{Block, Dlmalloc, Heap, Tag};
use crate::words;

verus! {

/// What became of a request.
#[derive(Clone, Copy, Debug, PartialEq, Eq, Structural)]
pub enum Outcome {
    /// The memory starts at this address.
    Ready(usize),
    /// No memory could hold so much.
    Refused,
    /// The system has to be asked for memory, for a chunk of so many bytes.
    Wanted(usize),
}

/// The size of the chunk for a request of `size` bytes.
pub open spec fn request(size: int) -> int {
    if size < 3 * arith::word() - 1 {
        4 * arith::word()
    } else {
        sizes::pad(size)
    }
}

/// Requests of so many bytes and more are refused.
pub open spec fn max_request() -> int {
    usize::MAX + 1 - 16 * arith::word()
}

impl Heap {
    /// A chunk `p` of size `s` is taken from its free list to hand out `nb` bytes.
    pub open spec fn serve(self, s: int, p: int, nb: int) -> Heap {
        self.take(s, p).cut(p, nb)
    }

    /// The rest of a chunk of size `s`, if there is any, becomes the designated victim.
    pub open spec fn keep_rest(self, s: int, p: int, nb: int) -> Heap {
        if s - nb >= 4 * arith::word() {
            self.designate(p + nb, s - nb)
        } else {
            self
        }
    }

    /// The rest of a chunk of size `s`, if there is any, goes to the free list for its size.
    pub open spec fn bin_rest(self, s: int, p: int, nb: int) -> Heap {
        if s - nb >= 4 * arith::word() {
            self.put(s - nb, p + nb)
        } else {
            self
        }
    }

    /// The first `nb` bytes of the designated victim are handed out.
    pub open spec fn cut_dv(self, nb: int) -> Heap {
        let h = self.cut(self.dv, nb);
        if self.dvsize - nb >= 4 * arith::word() {
            Heap { dv: self.dv + nb, dvsize: self.dvsize - nb, ..h }
        } else {
            Heap { dv: 0, dvsize: 0, ..h }
        }
    }

    /// Some large chunk holds `nb` bytes, and the designated victim is no better fit than the
    /// least of them: it is too small, or it is larger.
    pub open spec fn suits_large(self, nb: int) -> bool {
        &&& search::some_fit(self.large, nb)
        &&& !(nb <= self.dvsize && self.dvsize <= search::least_fit(self.large, nb))
    }

    /// `nb` bytes from the designated victim or else from the top chunk.
    pub open spec fn malloc_rest(self, nb: int) -> (Heap, Outcome) {
        if nb <= self.dvsize {
            (self.cut_dv(nb), ready(self.dv))
        } else if nb < self.topsize {
            (self.cut_top(nb), ready(self.top))
        } else {
            (self, Outcome::Wanted(nb as usize))
        }
    }

    /// What a request of `size` bytes does, and what comes of it.
    ///
    /// A small request takes the newest chunk of its own size or of the next bin. Failing
    /// that, the designated victim serves it if it is large enough; if it is not, the
    /// least small chunk that fits is cut, or else the least large chunk, and what is left
    /// becomes the designated victim. A large request takes the least large chunk that fits,
    /// unless the designated victim fits as well or better. The designated victim and the top
    /// chunk come last.
    pub open spec fn malloc(self, size: int) -> (Heap, Outcome) {
        let nb = request(size);
        if size <= 256 - 3 * arith::word() {
            if self.small.contains_key(nb) {
                let p = self.small[nb].last();
                (self.serve(nb, p, nb), ready(p))
            } else if self.small.contains_key(nb + 8) {
                let p = self.small[nb + 8].last();
                (self.serve(nb + 8, p, nb + 8), ready(p))
            } else if nb > self.dvsize && search::some_fit(self.small, nb) {
                let s = search::least_fit(self.small, nb);
                let p = self.small[s].last();
                (self.serve(s, p, nb).keep_rest(s, p, nb), ready(p))
            } else if nb > self.dvsize && search::some_fit(self.large, 0) {
                let s = search::least_fit(self.large, 0);
                let p = self.large[s][0];
                (self.serve(s, p, nb).keep_rest(s, p, nb), ready(p))
            } else {
                self.malloc_rest(nb)
            }
        } else if size >= max_request() {
            (self, Outcome::Refused)
        } else if self.suits_large(nb) {
            let s = search::least_fit(self.large, nb);
            let p = self.large[s][0];
            (self.serve(s, p, nb).bin_rest(s, p, nb), ready(p))
        } else {
            self.malloc_rest(nb)
        }
    }
}

/// The chunk at `p` is handed out.
pub open spec fn ready(p: int) -> Outcome {
    Outcome::Ready((p + 2 * arith::word()) as usize)
}

/// What a request asks of chunk sizes.
pub proof fn lemma_request(size: int)
    requires
        0 <= size,
    ensures
        4 * arith::word() <= request(size),
        size + arith::word() <= request(size) <= size + 4 * arith::word(),
        arith::aligned(request(size)),
        size <= 256 - 3 * arith::word() ==> request(size) < 256,
        size <= 256 - 3 * arith::word() ==> request(size) <= 248,
        size > 256 - 3 * arith::word() ==> request(size) >= 256,
        size < 3 * arith::word() - 1 || request(size) == sizes::pad(size),
{
    reveal(arith::aligned);
}

impl Dlmalloc {
    /// Takes the newest chunk out of small bin `i`.
    fn pop_small(&mut self, i: u32, Ghost(loose): Ghost<Set<int>>) -> (p: usize)
        requires
            old(self).wf_but(loose),
            i < 32,
            old(self).model@.small.contains_key(8 * i as int),
        ensures
            final(self).wf_but(loose.insert(p as int)),
            final(self).same_but_bins(old(self)),
            p == old(self)@.small[8 * i as int].last(),
            final(self)@ == old(self)@.take(8 * i as int, p as int),
            p != old(self).dv,
            !loose.contains(p as int),
            old(self).model@.chunks.contains_key(p as int),
            old(self).model@.chunks[p as int] == (Block { size: 8 * i as int, tag: Tag::Free }),
            final(self).keeps(old(self)),
    {
        let ghost s = 8 * i as int;
        let ghost l = self.model@.small[s];
        let b: usize = self.smallbin_at(i);
        proof {
            let n = seq![b as int] + l;
            assert(s / 8 == i);
            assert(self.mem.prevs@[n[0]] == n[n.len() - 1]);
            assert(n[n.len() - 1] == l.last());
        }
        let p: usize = self.mem.prevs.get(b);
        let ghost o = *self;
        self.unlink_first_small_chunk(b, p, i);
        proof {
            assert(l.contains(l.last()));
            assert(self@ == o@.take(s, p as int));
            carve::lemma_unlinked(o, *self, s, p as int, loose);
            words::lemma_relinked(o, *self, p as int);
        }
        p
    }

    /// Takes the first chunk of large size `s` out of its tree.
    fn pop_large(&mut self, p: usize, Ghost(s): Ghost<int>)
        requires
            old(self).wf(),
            old(self).model@.large.contains_key(s),
            p == old(self).model@.large[s][0],
        ensures
            final(self).wf_but(Set::empty().insert(p as int)),
            final(self).same_but_bins(old(self)),
            final(self)@ == old(self)@.take(s, p as int),
            p != old(self).dv,
            old(self).model@.chunks.contains_key(p as int),
            old(self).model@.chunks[p as int] == (Block { size: s, tag: Tag::Free }),
            256 <= s <= usize::MAX,
            final(self).keeps(old(self)),
    {
        let ghost o = *self;
        proof {
            let l = self.model@.large[s];
            assert(l.contains(l[0]));
            assert(state::in_bin(self.model@.small, self.model@.large, s, p as int));
            self.lemma_listed(s, p as int);
        }
        self.unlink_large_chunk(p);
        proof {
            assert(self@ == o@.take(s, p as int));
            carve::lemma_unlinked(o, *self, s, p as int, Set::empty());
            words::lemma_relinked(o, *self, p as int);
        }
    }

    /// Cuts `nb` bytes off the loose chunk `p`. What is left becomes the designated victim.
    fn carve_and_keep(&mut self, p: usize, size: usize, nb: usize)
        requires
            old(self).wf_but(Set::empty().insert(p as int)),
            p != old(self).dv,
            old(self).model@.chunks.contains_key(p as int),
            old(self).model@.chunks[p as int] == (Block { size: size as int, tag: Tag::Free }),
            4 * arith::word() <= nb <= size,
            arith::aligned(nb as int),
            old(self).dvsize < 256,
        ensures
            final(self).wf(),
            final(self)@ == old(self)@.cut(p as int, nb as int).keep_rest(
                size as int,
                p as int,
                nb as int,
            ),
            final(self).keeps(old(self)),
    {
        let ghost e = Set::<int>::empty();
        let ghost l = e.insert(p as int);
        self.carve(p, size, nb, Ghost(l));
        let ghost d = *self;
        let rsize: usize = size - nb;
        assert(l.remove(p as int) =~= e);
        if rsize >= self.min_chunk_size() {
            assert(state::chunk_ok(
                self.model@.chunks,
                self.mem.heads@,
                self.mem.feet@,
                p + nb,
            ));
            let r: usize = Chunk::plus_offset(p, nb);
            assert(e.insert(r as int).remove(r as int) =~= e);
            self.replace_dv(r, rsize, Ghost(e.insert(r as int)));
            proof {
                words::lemma_kept_on(*old(self), d, *self, 0, 0);
            }
        }
    }

    /// Cuts the least large chunk for a small request of `size` bytes.
    pub(crate) fn tmalloc_small(&mut self, size: usize) -> (r: usize)
        requires
            old(self).wf(),
            old(self).treemap != 0,
            4 * arith::word() <= size < 256,
            arith::aligned(size as int),
            old(self).dvsize < size,
        ensures
            final(self).wf(),
            search::some_fit(old(self)@.large, 0),
            ({
                let s = search::least_fit(old(self)@.large, 0);
                let p = old(self)@.large[s][0];
                &&& final(self)@ == old(self)@.serve(s, p, size as int).keep_rest(
                    s,
                    p,
                    size as int,
                )
                &&& r == p + 2 * arith::word()
            }),
            final(self).keeps(old(self)),
    {
        let (v, rsize) = self.smallest_large(size);
        let ghost s = search::least_fit(self.model@.large, 0);
        self.pop_large(v, Ghost(s));
        let ghost d = *self;
        proof {
            lemma_room(*self, v as int);
        }
        self.carve_and_keep(v, rsize + size, size);
        proof {
            words::lemma_kept_on(*old(self), d, *self, 0, 0);
        }
        Chunk::to_mem(v)
    }

    /// Cuts the least large chunk of `size` bytes or more. Gives back zero if there is none, or
    /// if the designated victim fits as well or better.
    pub(crate) fn tmalloc_large(&mut self, size: usize) -> (r: usize)
        requires
            old(self).wf(),
            256 <= size < usize::MAX,
            arith::aligned(size as int),
        ensures
            final(self).wf(),
            if old(self)@.suits_large(size as int) {
                let s = search::least_fit(old(self)@.large, size as int);
                let p = old(self)@.large[s][0];
                &&& final(self)@ == old(self)@.serve(s, p, size as int).bin_rest(
                    s,
                    p,
                    size as int,
                )
                &&& r == p + 2 * arith::word()
                &&& p > 0
            } else {
                &&& r == 0
                &&& *final(self) == *old(self)
            },
            final(self).keeps(old(self)),
    {
        proof {
            sizes::lemma_round_aligned(size as int);
        }
        let (v, rsize) = self.best_fit(size);
        let ghost s = search::least_fit(self.model@.large, size as int);
        if v == 0 || (size <= self.dvsize && rsize >= self.dvsize - size) {
            proof {
                words::lemma_idle(*self, 0);
            }
            return 0;
        }
        let ghost e = Set::<int>::empty();
        let ghost l = e.insert(v as int);
        self.pop_large(v, Ghost(s));
        let ghost d = *self;
        proof {
            lemma_room(*self, v as int);
        }
        self.carve(v, rsize + size, size, Ghost(l));
        let ghost d2 = *self;
        proof {
            words::lemma_kept_on(*old(self), d, d2, 0, 0);
        }
        assert(l.remove(v as int) =~= e);
        if rsize >= self.min_chunk_size() {
            assert(state::chunk_ok(
                self.model@.chunks,
                self.mem.heads@,
                self.mem.feet@,
                v + size,
            ));
            let r: usize = Chunk::plus_offset(v, size);
            assert(e.insert(r as int).remove(r as int) =~= e);
            self.insert_chunk(r, rsize, Ghost(e.insert(r as int)));
            proof {
                words::lemma_kept_on(*old(self), d2, *self, 0, 0);
            }
        }
        Chunk::to_mem(v)
    }

    /// Cuts `nb` bytes off the designated victim.
    fn carve_dv(&mut self, nb: usize) -> (p: usize)
        requires
            old(self).wf(),
            4 * arith::word() <= nb <= old(self).dvsize,
            arith::aligned(nb as int),
        ensures
            final(self).wf(),
            p == old(self).dv,
            final(self)@ == old(self)@.cut_dv(nb as int),
            p + 2 * arith::word() <= usize::MAX,
            final(self).keeps(old(self)),
    {
        let rsize: usize = self.dvsize - nb;
        let p: usize = self.dv;
        let dvs: usize = self.dvsize;
        let ghost e = Set::<int>::empty();
        proof {
            lemma_room(*self, p as int);
        }
        self.carve(p, dvs, nb, Ghost(e));
        assert(e.remove(p as int) =~= e);
        proof {
            if rsize >= 4 * arith::word() {
                assert(state::chunk_ok(
                    self.model@.chunks,
                    self.mem.heads@,
                    self.mem.feet@,
                    p + nb,
                ));
                crate::freelists::lemma_designated(
                    self@,
                    self@.chunks,
                    e.insert(p + nb),
                    p + nb,
                );
                assert(e.insert(p + nb).remove(p + nb) =~= e);
            }
        }
        if rsize >= self.min_chunk_size() {
            self.dv = Chunk::plus_offset(p, nb);
            self.dvsize = rsize;
        } else {
            self.dvsize = 0;
            self.dv = 0;
        }
        p
    }

    /// The designated victim or else the top chunk serves `nb` bytes.
    fn malloc_rest(&mut self, nb: usize) -> (r: Outcome)
        requires
            old(self).wf(),
            4 * arith::word() <= nb,
            arith::aligned(nb as int),
        ensures
            final(self).wf(),
            (final(self)@, r) == old(self)@.malloc_rest(nb as int),
            !(r is Ready) ==> *final(self) == *old(self),
            final(self).keeps(old(self)),
    {
        if nb <= self.dvsize {
            let p: usize = self.carve_dv(nb);
            return Outcome::Ready(Chunk::to_mem(p));
        }
        if nb < self.topsize {
            proof {
                lemma_room(*self, self.top as int);
            }
            let p: usize = self.carve_top(nb);
            return Outcome::Ready(Chunk::to_mem(p));
        }
        proof {
            words::lemma_idle(*self, 0);
        }
        Outcome::Wanted(nb)
    }

    /// Hands out the newest chunk of small bin `idx`.
    fn serve_small(&mut self, idx: u32) -> (mem: usize)
        requires
            old(self).wf(),
            idx < 32,
            old(self)@.small.contains_key(8 * (idx as int)),
        ensures
            final(self).wf(),
            ({
                let s = 8 * (idx as int);
                let p = old(self)@.small[s].last();
                &&& final(self)@ == old(self)@.serve(s, p, s)
                &&& mem == p + 2 * arith::word()
            }),
            final(self).keeps(old(self)),
    {
        let ghost e = Set::<int>::empty();
        let p: usize = self.pop_small(idx, Ghost(e));
        let smallsize: usize = self.small_index2size(idx);
        let ghost l = e.insert(p as int);
        proof {
            self.lemma_fresh(l, p as int);
            lemma_room(*self, p as int);
            assert(l.remove(p as int) =~= e);
        }
        let ghost d = *self;
        self.carve(p, smallsize, smallsize, Ghost(l));
        proof {
            words::lemma_kept_on(*old(self), d, *self, 0, 0);
        }
        Chunk::to_mem(p)
    }

    /// Cuts `nb` bytes from the newest chunk of the first small bin behind bin `idx` that holds any.
    fn serve_next(&mut self, idx: u32, smallbits: u32, nb: usize) -> (mem: usize)
        requires
            old(self).wf(),
            idx < 32,
            nb == 8 * idx,
            arith::aligned(nb as int),
            4 * arith::word() <= nb,
            smallbits == old(self).smallmap >> idx,
            smallbits != 0,
            !arith::has_bit(old(self).smallmap, idx as int),
            old(self).dvsize < nb,
        ensures
            final(self).wf(),
            ({
                let h = old(self)@;
                let s = search::least_fit(h.small, nb as int);
                let p = h.small[s].last();
                &&& search::some_fit(h.small, nb as int)
                &&& final(self)@ == h.serve(s, p, nb as int).keep_rest(s, p, nb as int)
                &&& mem == p + 2 * arith::word()
            }),
            final(self).keeps(old(self)),
    {
        let one: u32 = 1u32 << idx;
        let up: u32 = smallbits << idx;
        let lb: u32 = arith::left_bits(one);
        let leftbits: u32 = up & lb;
        proof {
            lemma_and_commutes(up, lb);
            search::lemma_later_bins(idx, one, lb, up, leftbits);
            lemma_upper_bins(self.smallmap, idx, smallbits, up);
            lemma_next_bin(*self, idx, leftbits, smallbits);
        }
        let i: u32 = arith::lowest_index(leftbits);
        proof {
            lemma_least_small(*self, idx, leftbits, i);
        }
        let p: usize = self.pop_small(i, Ghost(Set::<int>::empty()));
        let smallsize: usize = self.small_index2size(i);
        proof {
            lemma_room(*self, p as int);
        }
        let ghost d = *self;
        self.carve_and_keep(p, smallsize, nb);
        proof {
            words::lemma_kept_on(*old(self), d, *self, 0, 0);
        }
        Chunk::to_mem(p)
    }

    /// Serves a request of `size` bytes from memory at hand.
    #[verifier::rlimit(50)]
    pub fn malloc(&mut self, size: usize) -> (r: Outcome)
        requires
            old(self).wf(),
        ensures
            final(self).wf(),
            (final(self)@, r) == old(self)@.malloc(size as int),
            !(r is Ready) ==> *final(self) == *old(self),
            final(self).keeps(old(self)),
    {
        let nb: usize;
        proof {
            lemma_request(size as int);
        }
        if size <= self.max_small_request() {
            nb = if size < self.min_request() {
                self.min_chunk_size()
            } else {
                self.pad_request(size)
            };
            let mut idx: u32 = self.small_index(nb);
            let smallbits: u32 = self.smallmap >> idx;
            proof {
                lemma_small_bits(*self, nb, idx, smallbits);
            }
            if smallbits & 0b11 != 0 {
                idx = idx + (!smallbits & 1);
                let mem: usize = self.serve_small(idx);
                return Outcome::Ready(mem);
            }
            if nb > self.dvsize {
                if smallbits != 0 {
                    let mem: usize = self.serve_next(idx, smallbits, nb);
                    return Outcome::Ready(mem);
                } else {
                    proof {
                        lemma_some_large(*self);
                    }
                    if self.treemap != 0 {
                        let mem: usize = self.tmalloc_small(nb);
                        return Outcome::Ready(mem);
                    }
                }
            }
        } else if size >= self.max_request() {
            proof {
                words::lemma_idle(*self, 0);
            }
            return Outcome::Refused;
        } else {
            nb = self.pad_request(size);
            proof {
                lemma_some_large(*self);
            }
            if self.treemap != 0 {
                let mem: usize = self.tmalloc_large(nb);
                if mem != 0 {
                    return Outcome::Ready(mem);
                }
            }
        }
        self.malloc_rest(nb)
    }
}

/// The two lowest bits of `m` from bit `i` on.
proof fn lemma_low_bits(m: u32, i: u32, b: u32)
    requires
        i < 32,
        b == m >> i,
    ensures
        (b & 3 != 0) <==> arith::has_bit(m, i as int) || (i < 31 && arith::has_bit(m, i + 1)),
        !b & 1 == if arith::has_bit(m, i as int) { 0u32 } else { 1u32 },
        b == 0 ==> forall|j: int| i <= j < 32 ==> !#[trigger] arith::has_bit(m, j),
{
    let i1 = (i + 1) as u32;
    assert(((b & 3 != 0) <==> ((m >> i) & 1 == 1 || (i < 31 && (m >> i1) & 1 == 1))) && !b & 1 == if (m >> i)
        & 1 == 1 {
        0u32
    } else {
        1u32
    }) by (bit_vector)
        requires
            b == m >> i,
            i1 == i + 1,
            i < 32,
    ;
    if b == 0 {
        assert forall|j: int| i <= j < 32 implies !#[trigger] arith::has_bit(m, j) by {
            let ju = j as u32;
            assert((m >> ju) & 1 != 1) by (bit_vector)
                requires
                    m >> i == 0,
                    i <= ju < 32,
            ;
        }
    }
}

/// What the map of the small bins says of those from that of size `nb` on.
proof fn lemma_small_bits(d: Dlmalloc, nb: usize, idx: u32, b: u32)
    requires
        d.bins_wf(),
        4 * arith::word() <= nb <= 248,
        nb % 8 == 0,
        idx == nb / 8,
        b == d.smallmap >> idx,
    ensures
        idx < 32,
        8 * (idx as int) == nb,
        (b & 3 != 0) <==> d@.small.contains_key(nb as int) || d@.small.contains_key(nb + 8),
        !b & 1 == if d@.small.contains_key(nb as int) { 0u32 } else { 1u32 },
        d@.small.contains_key(nb + 8) ==> idx < 31,
        arith::has_bit(d.smallmap, idx as int) <==> d@.small.contains_key(nb as int),
        b == 0 ==> !search::some_fit(d@.small, nb as int),
{
    let small = d@.small;
    lemma_low_bits(d.smallmap, idx, b);
    assert(arith::has_bit(d.smallmap, idx as int) <==> small.contains_key(8 * (idx as int)));
    if idx < 31 {
        assert(arith::has_bit(d.smallmap, idx + 1) <==> small.contains_key(8 * (idx + 1)));
    }
    assert(!small.contains_key(256));
    if b == 0 {
        lemma_no_small(d, idx, b);
    }
}

proof fn lemma_and_commutes(a: u32, b: u32)
    ensures
        a & b == b & a,
{
    assert(a & b == b & a) by (bit_vector);
}

/// The bits of `m` from bit `i` on, in place.
proof fn lemma_upper_bins(m: u32, i: u32, b: u32, up: u32)
    requires
        i < 32,
        b == m >> i,
        up == b << i,
    ensures
        forall|j: int|
            0 <= j < 32 ==> (#[trigger] arith::has_bit(up, j) <==> i <= j && arith::has_bit(m, j)),
        b != 0 ==> up != 0,
{
    assert forall|j: int| 0 <= j < 32 implies (#[trigger] arith::has_bit(up, j) <==> i <= j
        && arith::has_bit(m, j)) by {
        let ju = j as u32;
        assert(((((m >> i) << i) >> ju) & 1 == 1) <==> (i <= ju && (m >> ju) & 1 == 1))
            by (bit_vector)
            requires
                i < 32,
                ju < 32,
        ;
    }
    assert(m >> i != 0 ==> (m >> i) << i != 0) by (bit_vector);
}

/// Some small bin behind bin `idx` and the next holds a chunk.
proof fn lemma_next_bin(d: Dlmalloc, idx: u32, leftbits: u32, b: u32)
    requires
        idx < 32,
        b == d.smallmap >> idx,
        b != 0,
        !arith::has_bit(d.smallmap, idx as int),
        forall|j: int|
            0 <= j < 32 ==> (#[trigger] arith::has_bit(leftbits, j) <==> idx < j
                && arith::has_bit(b << idx, j)),
    ensures
        leftbits != 0,
        forall|j: int|
            0 <= j < 32 ==> (#[trigger] arith::has_bit(leftbits, j) <==> idx < j
                && arith::has_bit(d.smallmap, j)),
{
    let up = b << idx;
    lemma_upper_bins(d.smallmap, idx, b, up);
    arith::lemma_some_bit(up);
    let j = choose|j: int| 0 <= j < 32 && #[trigger] arith::has_bit(up, j);
    assert(arith::has_bit(leftbits, j));
    arith::lemma_some_bit(leftbits);
}

/// The lowest of the marked bins holds the least small chunk that fits.
proof fn lemma_least_small(d: Dlmalloc, idx: u32, leftbits: u32, i: u32)
    requires
        d.bins_wf(),
        idx < 32,
        i < 32,
        !arith::has_bit(d.smallmap, idx as int),
        arith::has_bit(leftbits, i as int),
        forall|k: int| 0 <= k < i ==> !#[trigger] arith::has_bit(leftbits, k),
        forall|j: int|
            0 <= j < 32 ==> (#[trigger] arith::has_bit(leftbits, j) <==> idx < j
                && arith::has_bit(d.smallmap, j)),
    ensures
        search::some_fit(d.model@.small, 8 * idx as int),
        search::least_fit(d.model@.small, 8 * idx as int) == 8 * i,
        d.model@.small.contains_key(8 * i as int),
        idx < i,
{
    let small = d.model@.small;
    assert(arith::has_bit(d.smallmap, i as int) <==> small.contains_key(8 * (i as int)));
    assert forall|t: int| #[trigger] small.contains_key(t) && 8 * idx <= t implies 8 * i <= t by {
        assert(t < 256 && t == 8 * (t / 8));
        let j = t / 8;
        assert(arith::has_bit(d.smallmap, j) <==> small.contains_key(8 * j));
        assert(arith::has_bit(leftbits, j));
    }
    assert(search::is_least(small, 8 * idx as int, 8 * i as int));
    search::lemma_least_fit(small, 8 * idx as int, 8 * i as int);
}

/// No small chunk is large enough.
proof fn lemma_no_small(d: Dlmalloc, idx: u32, b: u32)
    requires
        d.bins_wf(),
        idx < 32,
        b == d.smallmap >> idx,
        b == 0,
    ensures
        !search::some_fit(d.model@.small, 8 * idx as int),
{
    let small = d.model@.small;
    lemma_low_bits(d.smallmap, idx, b);
    assert forall|t: int| #[trigger] small.contains_key(t) implies t < 8 * idx by {
        assert(t < 256 && t == 8 * (t / 8));
        let j = t / 8;
        assert(arith::has_bit(d.smallmap, j) <==> small.contains_key(8 * j));
    }
}

/// A tree bin is marked exactly if there is a large chunk.
proof fn lemma_some_large(d: Dlmalloc)
    requires
        d.bins_wf(),
    ensures
        d.treemap != 0 <==> search::some_fit(d.model@.large, 0),
        d.treemap == 0 ==> forall|lo: int| !#[trigger] search::some_fit(d.model@.large, lo),
{
    let m = d.model@;
    arith::lemma_some_bit(d.treemap);
    if d.treemap != 0 {
        let i = choose|i: int| 0 <= i < 32 && #[trigger] arith::has_bit(d.treemap, i);
        let k = state::root_key(i);
        assert(m.trie.contains_key(k));
        assert(m.large.contains_key(m.trie[k]));
    } else {
        assert forall|s: int| !#[trigger] m.large.contains_key(s) by {
            if m.large.contains_key(s) {
                search::lemma_bin_of(d, s);
            }
        }
    }
}

/// Behind a chunk there is room for the header that a client does not see.
pub(crate) proof fn lemma_room(d: Dlmalloc, p: int)
    requires
        d.phys_wf(),
        d.model@.chunks.contains_key(p),
    ensures
        p + 2 * arith::word() <= usize::MAX,
        p + d.model@.chunks[p].size <= usize::MAX,
        0 < p,
{
    assert(state::chunk_ok(d.model@.chunks, d.mem.heads@, d.mem.feet@, p));
    sizes::lemma_aligned_least(d.model@.chunks[p].size);
}

} // verus!
