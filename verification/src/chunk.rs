//! Chunk headers.
//!
//! The head word of a chunk holds its size, a multiple of eight, and in the
//! low bits whether the preceding chunk is in use and whether the chunk itself is.
use vstd::prelude::*;
use crate::arith;
use crate::memory::Memory;

verus! {

/// The preceding chunk is in use.
pub const PINUSE: usize = 1;

/// The chunk is in use.
pub const CINUSE: usize = 2;

/// A bit that no chunk uses.
pub const FLAG4: usize = 4;

/// Both bits of use.
pub const INUSE: usize = 3;

/// All low bits.
pub const FLAG_BITS: usize = 7;

/// The size in a head word.
pub open spec fn size_of(head: usize) -> int {
    head - head % 8
}

/// The bit for the preceding chunk in a head word.
pub open spec fn pinuse_of(head: usize) -> bool {
    head % 2 == 1
}

/// The bit for the chunk itself in a head word.
pub open spec fn cinuse_of(head: usize) -> bool {
    (head / 2) % 2 == 1
}

/// A head word that says anything but free behind a chunk in use.
pub open spec fn inuse_of(head: usize) -> bool {
    head % 4 != 1
}

pub(crate) proof fn lemma_head_bits(h: usize)
    by (bit_vector)
    ensures
        h & !7usize == h - h % 8,
        h & !3usize == h - h % 4,
        (h & 1 != 0) <==> h % 2 == 1,
        (h & 2 != 0) <==> (h / 2) % 2 == 1,
        h & 3 == h % 4,
        (1 | h | 2) == h - h % 4 + 3,
        (h | 1 | 2) == h - h % 4 + 3,
        h | 1 == h - h % 2 + 1,
        h & !1usize == h - h % 2,
        3 | 8usize == 11,
        3 | 4usize == 7,
        1 | 2usize == 3,
{
}

/// What is done with the header of the chunk at an address.
pub struct Chunk;

impl Chunk {
    /// The head word of the markers that end a segment.
    pub open spec fn fencepost() -> int {
        3 + arith::word()
    }

    pub fn fencepost_head() -> (r: usize)
        ensures
            r == Self::fencepost(),
    {
        proof {
            lemma_head_bits(0);
        }
        INUSE | arith::word_size()
    }

    /// The size of the chunk at `me`.
    pub fn size(mem: &Memory, me: usize) -> (r: usize)
        ensures
            r == size_of(mem.heads@[me as int]),
    {
        let h: usize = mem.heads.get(me);
        proof {
            lemma_head_bits(h);
        }
        h & !FLAG_BITS
    }

    /// The chunk behind that at `me`.
    pub fn next(mem: &Memory, me: usize) -> (r: usize)
        requires
            me + size_of(mem.heads@[me as int]) <= usize::MAX,
        ensures
            r == me + size_of(mem.heads@[me as int]),
    {
        me + Chunk::size(mem, me)
    }

    /// The address that lies the size of the preceding chunk behind `me`.
    pub fn prev(mem: &Memory, me: usize) -> (r: usize)
        requires
            me + mem.feet@[me as int] <= usize::MAX,
        ensures
            r == me + mem.feet@[me as int],
    {
        me + mem.feet.get(me)
    }

    /// Whether the chunk at `me` is in use.
    pub fn cinuse(mem: &Memory, me: usize) -> (r: bool)
        ensures
            r == cinuse_of(mem.heads@[me as int]),
    {
        let h: usize = mem.heads.get(me);
        proof {
            lemma_head_bits(h);
        }
        h & CINUSE != 0
    }

    /// Whether the chunk in front of `me` is in use.
    pub fn pinuse(mem: &Memory, me: usize) -> (r: bool)
        ensures
            r == pinuse_of(mem.heads@[me as int]),
    {
        let h: usize = mem.heads.get(me);
        proof {
            lemma_head_bits(h);
        }
        h & PINUSE != 0
    }

    /// Marks the chunk in front of `me` as free.
    pub fn clear_pinuse(mem: &mut Memory, me: usize)
        ensures
            *final(mem) == (Memory { heads: final(mem).heads, ..*old(mem) }),
            final(mem).heads@ == old(mem).heads@.insert(
                me as int,
                (old(mem).heads@[me as int] - old(mem).heads@[me as int] % 2) as usize,
            ),
    {
        let h: usize = mem.heads.get(me);
        proof {
            lemma_head_bits(h);
        }
        mem.heads.set(me, h & !PINUSE);
    }

    /// Whether the chunk at `me` is in use, or the one in front of it free.
    pub fn inuse(mem: &Memory, me: usize) -> (r: bool)
        ensures
            r == inuse_of(mem.heads@[me as int]),
    {
        let h: usize = mem.heads.get(me);
        proof {
            lemma_head_bits(h);
        }
        h & INUSE != PINUSE
    }

    /// Whether neither bit of use is set at `me`.
    pub fn mmapped(mem: &Memory, me: usize) -> (r: bool)
        ensures
            r == (mem.heads@[me as int] % 4 == 0),
    {
        let h: usize = mem.heads.get(me);
        proof {
            lemma_head_bits(h);
        }
        h & INUSE == 0
    }

    /// Makes `me` a chunk in use of `size` bytes, and tells the chunk behind it.
    pub fn set_inuse_and_pinuse(mem: &mut Memory, me: usize, size: usize)
        requires
            me + size <= usize::MAX,
        ensures
            *final(mem) == (Memory { heads: final(mem).heads, ..*old(mem) }),
            ({
                let heads = old(mem).heads@.insert(me as int, (size - size % 4 + 3) as usize);
                let h = heads[me + size];
                final(mem).heads@ == heads.insert(me + size, (h - h % 2 + 1) as usize)
            }),
    {
        proof {
            lemma_head_bits(size);
            assert(size - size % 4 + 3 <= usize::MAX);
        }
        mem.heads.set(me, PINUSE | size | CINUSE);
        let next: usize = Chunk::plus_offset(me, size);
        let h: usize = mem.heads.get(next);
        proof {
            lemma_head_bits(h);
        }
        mem.heads.set(next, h | PINUSE);
    }

    /// Makes `me` a chunk in use of `size` bytes, behind a chunk in use.
    pub fn set_size_and_pinuse_of_inuse_chunk(mem: &mut Memory, me: usize, size: usize)
        ensures
            *final(mem) == (Memory { heads: final(mem).heads, ..*old(mem) }),
            final(mem).heads@ == old(mem).heads@.insert(
                me as int,
                (size - size % 4 + 3) as usize,
            ),
    {
        proof {
            lemma_head_bits(size);
        }
        mem.heads.set(me, size | PINUSE | CINUSE);
    }

    /// Makes `me` a free chunk of `size` bytes, behind a chunk in use.
    pub fn set_size_and_pinuse_of_free_chunk(mem: &mut Memory, me: usize, size: usize)
        requires
            me + size <= usize::MAX,
        ensures
            *final(mem) == (Memory { heads: final(mem).heads, feet: final(mem).feet, ..*old(mem) }),
            final(mem).heads@ == old(mem).heads@.insert(
                me as int,
                (size - size % 2 + 1) as usize,
            ),
            final(mem).feet@ == old(mem).feet@.insert(me + size, size),
    {
        proof {
            lemma_head_bits(size);
        }
        mem.heads.set(me, size | PINUSE);
        Chunk::set_foot(mem, me, size);
    }

    /// Makes `p` a free chunk of `size` bytes, behind a chunk in use, and tells chunk `n`.
    pub fn set_free_with_pinuse(mem: &mut Memory, p: usize, size: usize, n: usize)
        requires
            p + size <= usize::MAX,
        ensures
            *final(mem) == (Memory { heads: final(mem).heads, feet: final(mem).feet, ..*old(mem) }),
            ({
                let h = old(mem).heads@[n as int];
                final(mem).heads@ == old(mem).heads@.insert(
                    n as int,
                    (h - h % 2) as usize,
                ).insert(p as int, (size - size % 2 + 1) as usize)
            }),
            final(mem).feet@ == old(mem).feet@.insert(p + size, size),
    {
        Chunk::clear_pinuse(mem, n);
        Chunk::set_size_and_pinuse_of_free_chunk(mem, p, size);
    }

    /// Tells the chunk behind `me` the size of `me`.
    pub fn set_foot(mem: &mut Memory, me: usize, size: usize)
        requires
            me + size <= usize::MAX,
        ensures
            *final(mem) == (Memory { feet: final(mem).feet, ..*old(mem) }),
            final(mem).feet@ == old(mem).feet@.insert(me + size, size),
    {
        let next: usize = Chunk::plus_offset(me, size);
        mem.feet.set(next, size);
    }

    pub fn plus_offset(me: usize, offset: usize) -> (r: usize)
        requires
            me + offset <= usize::MAX,
        ensures
            r == me + offset,
    {
        me + offset
    }

    pub fn minus_offset(me: usize, offset: usize) -> (r: usize)
        requires
            offset <= me,
        ensures
            r == me - offset,
    {
        me - offset
    }

    /// The address that a client sees of the chunk at `me`.
    pub fn to_mem(me: usize) -> (r: usize)
        requires
            me + 2 * arith::word() <= usize::MAX,
        ensures
            r == me + 2 * arith::word(),
    {
        me + 2 * arith::word_size()
    }

    /// The chunk behind the address that a client sees.
    pub fn from_mem(mem: usize) -> (r: usize)
        requires
            2 * arith::word() <= mem,
        ensures
            r == mem - 2 * arith::word(),
    {
        mem - 2 * arith::word_size()
    }
}

} // verus!
